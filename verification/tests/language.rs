use zec::features::context::{Ctx, Overlay, PickerPayload, PromptTarget};
use zec::features::language::{
    code_action_message, completed_span, completion_applied, current_name, diagnostic_files, gather_offers, hover_lines, location_hits,
    push_diagnostics, rename_message, Diagnostic, Hit, Language, LanguageEvent, LanguageOutcome, Location,
    LocationKind, Offer, Picked, PreparedRename, Severity,
};
use zec::features::spots::Spot;
use zec::geometry::Point;

fn ctx() -> Ctx {
    Ctx { root: Some("/repo".to_owned()), active_item: 1, overlays: Vec::new(), status: None }
}

fn labels(ctx: &Ctx) -> Vec<(&str, &str)> {
    match ctx.overlays.last() {
        Some(Overlay::Picker { list, .. }) => {
            list.entries.iter().map(|entry| (entry.label.as_str(), entry.detail.as_str())).collect()
        }
        other => panic!("expected a picker, not {other:?}"),
    }
}

fn place(path: Option<&str>, row: u32, line: &str) -> Location {
    Location { path: path.map(str::to_owned), row, column: 4, line: line.to_owned() }
}

#[test]
fn requests_start_only_at_a_caret() {
    let mut ctx = ctx();
    let mut language = Language::default();
    assert_eq!(language.hover(&mut ctx, false, Ok(Point::new(1, 2))), None);
    assert_eq!(language.hover(&mut ctx, true, Err("no caret".to_owned())), None);
    assert_eq!(ctx.status.as_deref(), Some("no caret"));
    assert_eq!(language.generation(), 0);
    assert_eq!(language.rename(&mut ctx, true, Ok(Point::new(1, 2))), Some(Point::new(1, 2)));
    assert_eq!(language.generation(), 1);
    ctx.root = None;
    assert!(!language.diagnostics(&mut ctx));
    assert_eq!(ctx.status.as_deref(), Some("diagnostics need a directory root"));
}

#[test]
fn late_answers_and_answers_for_other_tabs_are_dropped() {
    let mut ctx = ctx();
    let mut language = Language::default();
    language.hover(&mut ctx, true, Ok(Point::new(0, 0)));
    language.hover(&mut ctx, true, Ok(Point::new(0, 0)));
    let answer = |generation: u64| LanguageEvent::Hover { generation, lines: vec!["doc".to_owned()] };
    language.update(&mut ctx, answer(1));
    assert!(ctx.overlays.is_empty());
    ctx.active_item = 2;
    language.update(&mut ctx, answer(2));
    assert!(ctx.overlays.is_empty());
    ctx.active_item = 1;
    language.update(&mut ctx, answer(2));
    assert!(matches!(
        ctx.overlays.last(),
        Some(Overlay::Text { title, rows, first: 0 }) if title == "Hover" && rows == &vec!["doc".to_owned()]
    ));
}

#[test]
fn empty_answers_are_told() {
    let mut ctx = ctx();
    let mut language = Language::default();
    language.hover(&mut ctx, true, Ok(Point::new(0, 0)));
    let mut told = |event: LanguageEvent| {
        language.update(&mut ctx, event);
        ctx.status.clone().unwrap()
    };
    assert_eq!(
        told(LanguageEvent::Completions { generation: 1, query: String::new(), completions: Vec::new() }),
        "no completions"
    );
    assert_eq!(told(LanguageEvent::Hover { generation: 1, lines: Vec::new() }), "no hover information");
    for (kind, text) in [
        (LocationKind::Definition, "no definition"),
        (LocationKind::TypeDefinition, "no type definition"),
        (LocationKind::References, "no references"),
    ] {
        assert_eq!(told(LanguageEvent::Locations { generation: 1, kind, hits: Vec::new() }), text);
    }
    assert_eq!(told(LanguageEvent::Diagnostics { generation: 1, entries: Vec::new() }), "no diagnostics");
    assert_eq!(
        told(LanguageEvent::RenamePrepared { generation: 1, point: Point::new(0, 0), current: None }),
        "nothing to rename at the caret"
    );
    assert_eq!(told(LanguageEvent::CodeActions { generation: 1, actions: Vec::new() }), "no code actions");
    assert_eq!(told(LanguageEvent::Applied { generation: 1, result: Err("failed".to_owned()) }), "failed");
}

#[test]
fn completions_start_from_the_word_at_the_caret() {
    let mut ctx = ctx();
    let mut language = Language::default();
    language.show_completions(&mut ctx, true, Ok(Point::new(0, 2)));
    let offer = |label: &str, detail: Option<&str>| Offer {
        label: label.to_owned(),
        detail: detail.map(str::to_owned),
    };
    language.update(
        &mut ctx,
        LanguageEvent::Completions {
            generation: 1,
            query: "pr".to_owned(),
            completions: vec![offer("print", Some("fn()")), offer("prime", None)],
        },
    );
    assert_eq!(labels(&ctx), vec![("print", "fn()"), ("prime", "")]);
    assert!(matches!(
        ctx.overlays.last(),
        Some(Overlay::Picker { query, list, .. }) if query.text() == "pr" && list.pattern == "pr"
    ));
    assert_eq!(language.pick(&mut ctx, "Completions", 9, true), Picked::Nothing);
    assert_eq!(
        language.pick(&mut ctx, "Completions", 1, true),
        Picked::Completion { index: 1, label: "prime".to_owned() }
    );
    completion_applied(&mut ctx, "prime", Ok(()));
    assert_eq!(ctx.status.as_deref(), Some("completed prime"));
    completion_applied(&mut ctx, "prime", Err("gone".to_owned()));
    assert_eq!(ctx.status.as_deref(), Some("completion failed: gone"));
}

#[test]
fn one_place_is_opened_and_several_are_listed() {
    let mut ctx = ctx();
    let mut language = Language::default();
    language.locations(&mut ctx, LocationKind::References, true, Ok(Point::new(0, 0)));
    let root = Some("/repo".to_owned());
    let hits = location_hits(
        &vec![
            place(Some("/repo/a.rs"), 1, "  let x;"),
            place(None, 9, "lost"),
            place(Some("/repo/a.rs"), 1, "let x;"),
            place(Some("/other/b.rs"), 0, "x"),
        ],
        &root,
    );
    let answer = |hits: Vec<(Hit, String)>| LanguageEvent::Locations {
        generation: 1,
        kind: LocationKind::References,
        hits,
    };
    language.update(&mut ctx, answer(hits));
    assert_eq!(labels(&ctx), vec![("a.rs:2  let x;", ""), ("/other/b.rs:1  x", "")]);
    let one = location_hits(&vec![place(Some("/repo/a.rs"), 1, "x")], &root);
    assert!(matches!(
        language.update(&mut ctx, answer(one)),
        LanguageOutcome::Open(hit) if hit.path == "/repo/a.rs" && (hit.row, hit.column) == (1, 4)
    ));
}

#[test]
fn hover_text_leaves_out_fences_and_is_bounded() {
    let blocks = vec!["```rust\nfn a()\n  ```".to_owned(), "words".to_owned()];
    assert_eq!(hover_lines(&blocks), vec!["fn a()", "words"]);
    assert_eq!(hover_lines(&vec!["x\n".repeat(600)]).len(), 500);
}

#[test]
fn primary_diagnostics_are_listed_by_file() {
    let diagnostic = |row: u32, is_primary: bool, severity: Severity| Diagnostic {
        row,
        column: 1,
        severity,
        message: "first\nsecond".to_owned(),
        is_primary,
    };
    let mut entries = Vec::new();
    push_diagnostics(
        &mut entries,
        "/repo/a.rs",
        &Some("/repo".to_owned()),
        &vec![diagnostic(0, true, Severity::Error), diagnostic(1, false, Severity::Hint)],
    );
    assert_eq!(entries.len(), 1);
    assert_eq!((entries[0].label.as_str(), entries[0].detail.as_str()), ("a.rs:1", "error first"));
    assert_eq!(
        entries[0].payload,
        PickerPayload::Location { path: "/repo/a.rs".to_owned(), row: 0, column: 1 }
    );
    let many = (0..600).map(|row| diagnostic(row, true, Severity::Warning)).collect();
    push_diagnostics(&mut entries, "/repo/b.rs", &None, &many);
    assert_eq!(entries.len(), 500);
    assert_eq!(Severity::Information.name(), "info");
    assert_eq!(Severity::Hint.name(), "hint");

    let spot = |group: u64, path: &str| Spot { group, path: path.to_owned(), row: 0, column: 0 };
    assert_eq!(diagnostic_files(&vec![spot(2, "a"), spot(1, "b/c"), spot(1, "b"), spot(1, "b/c")]), vec![2, 1, 0]);
}

#[test]
fn names_are_asked_for_and_given() {
    let mut ctx = ctx();
    let mut language = Language::default();
    language.rename(&mut ctx, true, Ok(Point::new(3, 4)));
    language.update(
        &mut ctx,
        LanguageEvent::RenamePrepared {
            generation: 1,
            point: Point::new(3, 4),
            current: current_name(PreparedRename::Text("old".to_owned())),
        },
    );
    assert!(matches!(
        ctx.overlays.last(),
        Some(Overlay::Prompt { label, line, target: PromptTarget::Rename, .. })
            if label == "Rename" && line.text() == "old"
    ));
    assert!(language.submit_rename(&mut ctx, "  ", true).is_none());
    let request = language.submit_rename(&mut ctx, " new ", true).unwrap();
    assert_eq!((request.point, request.new_name.as_str()), (Point::new(3, 4), "new"));
    assert!(ctx.overlays.is_empty());
    assert!(language.submit_rename(&mut ctx, "new", true).is_none());
    assert_eq!(rename_message("new", Ok(2)).unwrap(), "renamed to new in 2 buffer(s)");
    assert_eq!(rename_message("new", Err("no".to_owned())).unwrap_err(), "rename failed: no");
    assert_eq!(current_name(PreparedRename::Unprepared).as_deref(), Some(""));
    assert_eq!(current_name(PreparedRename::InvalidPosition), None);
    assert_eq!(current_name(PreparedRename::Failed), None);
}

#[test]
fn code_actions_are_listed_and_applied() {
    let mut ctx = ctx();
    let mut language = Language::default();
    language.code_actions(&mut ctx, true, Ok(Point::new(0, 0)));
    language.update(&mut ctx, LanguageEvent::CodeActions { generation: 1, actions: vec!["fix".to_owned()] });
    assert_eq!(labels(&ctx), vec![("fix", "")]);
    assert_eq!(language.pick(&mut ctx, "Other", 0, true), Picked::Nothing);
    assert_eq!(
        language.pick(&mut ctx, "Code actions", 0, true),
        Picked::CodeAction { index: 0, title: "fix".to_owned() }
    );
    assert_eq!(language.generation(), 2);
    assert_eq!(code_action_message("fix", Ok(())).unwrap(), "applied fix");
    assert_eq!(code_action_message("fix", Err("no".to_owned())).unwrap_err(), "code action failed: no");
}

#[test]
fn the_offers_of_all_servers_are_gathered() {
    let offer = |label: &str| Offer { label: label.to_owned(), detail: Some(format!("fn {label}")) };
    let gathered = gather_offers(&Ok(vec![vec![offer("a"), offer("b")], vec![], vec![offer("c")]]));
    let labels: Vec<&str> = gathered.iter().map(|offer| offer.label.as_str()).collect();
    assert_eq!(labels, ["a", "b", "c"]);
    assert_eq!(gathered[2].detail.as_deref(), Some("fn c"));
    assert!(gather_offers(&Err("down".to_owned())).is_empty());
    let (start, caret) = (Point::new(2, 4), Point::new(2, 7));
    assert_eq!(completed_span(start, caret), (start, caret));
    assert_eq!(completed_span(caret, start), (caret, caret));
    assert_eq!(completed_span(Point::new(1, 9), start), (Point::new(1, 9), start));
}
