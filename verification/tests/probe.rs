use zec::probe::{
    alias_paths, awaited_message, changed_paths, check_outside, check_roots, count_directory_reads, count_roots,
    document_trace, edited_text, end_position, excluded_queries, find_text, is_analyzer_ready, is_closed_in_time,
    is_failed_save_harmless, is_history_intact, is_saved, marker_position, publish_log, ready_timeout,
    request_report, request_timeout, same_settings, same_trace, shows_failure, tab_of_buffer, ConfigurationEvent,
    EffectiveLanguageSettings, FsAccess, LocationRequestKind, OutsideFault, OutsideTrial, RequestEnd, RootFault,
    RootTrial, ServerStatus, SourceText,
};

fn settings(tab_size: u32) -> EffectiveLanguageSettings {
    EffectiveLanguageSettings {
        tab_size,
        format_on_save: "on".to_owned(),
        completion_lsp: true,
        show_completions_on_input: false,
    }
}

#[test]
fn settings_are_compared_by_every_value() {
    assert!(same_settings(&settings(2), &settings(2)));
    assert!(!same_settings(&settings(2), &settings(4)));
    let other = EffectiveLanguageSettings { format_on_save: "off".to_owned(), ..settings(2) };
    assert!(!same_settings(&settings(2), &other));
}

#[test]
fn awaited_events_are_told_from_others() {
    let reloaded = |kind: &str, result: Result<&str, &str>| ConfigurationEvent::Reloaded {
        kind: kind.to_owned(),
        result: result.map(str::to_owned).map_err(str::to_owned),
    };
    assert_eq!(awaited_message(&reloaded("keymap", Ok("loaded")), "keymap", true), Some("loaded".to_owned()));
    assert_eq!(awaited_message(&reloaded("keymap", Ok("loaded")), "keymap", false), None);
    assert_eq!(awaited_message(&reloaded("keymap", Err("bad")), "keymap", false), Some("bad".to_owned()));
    assert_eq!(awaited_message(&reloaded("settings", Ok("loaded")), "keymap", true), None);
    assert_eq!(awaited_message(&ConfigurationEvent::Other, "keymap", true), None);
    assert_eq!(awaited_message(&ConfigurationEvent::Closed, "keymap", true), None);
}

#[test]
fn servers_and_texts_are_looked_at() {
    let server = |name: &str, has_process: bool| ServerStatus { name: name.to_owned(), has_process };
    assert!(!is_analyzer_ready(&vec![server("rust-analyzer", false), server("other", true)]));
    assert!(is_analyzer_ready(&vec![server("other", true), server("rust-analyzer", true)]));
    assert_eq!(marker_position("é stub_x"), Some(8));
    assert_eq!(marker_position("none"), None);
    assert_eq!(end_position("a\nbé"), (1, 3));
    assert_eq!(edited_text("x\n", "hang"), "x\n// continued after hang\n");
    assert_eq!((ready_timeout("restart-once"), ready_timeout("spawn-error")), (10_000, 500));
    assert_eq!((request_timeout("hang-request"), request_timeout("x")), (250, 3_000));
}

#[test]
fn outcomes_are_judged() {
    assert!(is_history_intact(true, "a", "b", "a", "b"));
    assert!(!is_history_intact(true, "a", "b", "b", "b"));
    assert!(!is_history_intact(false, "a", "b", "a", "b"));
    assert!(is_failed_save_harmless(true, "a", "a"));
    assert!(!is_failed_save_harmless(true, "b", "a"));
    assert!(is_saved(false, "a", "a"));
    assert!(!is_saved(true, "a", "a"));
    assert!(is_closed_in_time(250));
    assert!(!is_closed_in_time(251));
    let report = request_report(&RequestEnd::Completed(vec![None, Some("docé".to_owned())]));
    assert_eq!((report.completion_count, report.max_documentation_bytes), (2, 5));
    assert_eq!(request_report(&RequestEnd::Failed("x".to_owned())).outcome, "error: x");
    assert_eq!(request_report(&RequestEnd::TimedOut).outcome, "cancelled");
    assert_eq!(LocationRequestKind::ProjectSymbols.key(), "project_symbols");
}

#[test]
fn changed_files_are_reported() {
    let source = |path: &str, text: &str| SourceText { path: path.to_owned(), text: text.to_owned() };
    let before = vec![source("a", "1"), source("b", "2")];
    let after = vec![source("a", "1"), source("b", "3"), source("c", "4")];
    assert_eq!(changed_paths(&before, &after), vec!["b", "c"]);
    assert!(changed_paths(&before, &before).is_empty());
    assert_eq!((find_text(&after, "b"), find_text(&before, "c")), (Some("3"), None));
}

#[test]
fn roots_are_the_same_however_they_are_named() {
    let trial = |id: &str| RootTrial {
        id: id.to_owned(),
        cwd: "/repo/src".to_owned(),
        argument: Some("..".to_owned()),
        path_count: 1,
        error_count: 0,
        resolved_path: "/repo".to_owned(),
        has_repository: true,
        repository_root: "/repo".to_owned(),
        worktree_id: "1".to_owned(),
        directory_opened_as_file: false,
    };
    assert_eq!(check_roots(&vec![trial("a"), trial("b")], "/repo"), None);
    assert_eq!(check_roots(&Vec::new(), "/repo"), Some(RootFault::NoInput));
    assert_eq!(
        check_roots(&vec![RootTrial { path_count: 2, ..trial("a") }], "/repo"),
        Some(RootFault::PathCount { id: "a".to_owned(), count: 2 })
    );
    assert_eq!(
        check_roots(&vec![RootTrial { error_count: 1, ..trial("a") }], "/repo"),
        Some(RootFault::NotOpened { id: "a".to_owned() })
    );
    assert_eq!(
        check_roots(&vec![trial("a"), RootTrial { has_repository: false, ..trial("b") }], "/repo"),
        Some(RootFault::NoRepository { id: "b".to_owned() })
    );
    assert_eq!(
        check_roots(&vec![trial("a"), RootTrial { resolved_path: "/x".to_owned(), ..trial("b") }], "/repo"),
        Some(RootFault::Escaped { id: "b".to_owned() })
    );
    assert_eq!(
        check_roots(&vec![RootTrial { directory_opened_as_file: true, ..trial("a") }], "/repo"),
        Some(RootFault::OpenedAsFile)
    );
    assert_eq!(
        check_roots(&vec![trial("a"), RootTrial { worktree_id: "2".to_owned(), ..trial("b") }], "/repo"),
        Some(RootFault::SeveralWorktrees)
    );
    assert_eq!(count_roots(&vec![trial("a"), trial("b")], 1), Some((1, 1)));
    assert_eq!(count_roots(&vec![trial("a"), trial("b")], 2), None);
    assert_eq!(count_roots(&vec![trial("a")], 0), None);
    let other = RootTrial { worktree_id: "2".to_owned(), repository_root: "/x".to_owned(), ..trial("b") };
    assert_eq!(count_roots(&vec![trial("a"), other, trial("c")], 2), Some((2, 2)));
}

#[test]
fn traces_are_counted() {
    assert_eq!(tab_of_buffer(&vec![4, 5, 5], 5), (1, false));
    assert_eq!(tab_of_buffer(&vec![4, 5], 6), (2, true));
    let access = |reads_directory: bool, path: &str| FsAccess { reads_directory, path: path.to_owned() };
    let list = vec![access(true, "/out"), access(false, "/out"), access(true, "/else"), access(true, "/out")];
    assert_eq!(count_directory_reads(&list, &Some("/out".to_owned())), (2, 1));
    assert_eq!(count_directory_reads(&list, &None), (0, 3));
    assert_eq!(publish_log(true, true), vec!["B", "A"]);
    assert_eq!(publish_log(true, false), vec!["B"]);
    assert!(shows_failure("project: search failed: EIO"));
    assert!(!shows_failure("search failed: ENOENT"));
    assert_eq!(excluded_queries("/out/x")[3], "/out/x");
}

#[test]
fn outside_files_are_opened_alone() {
    let trial = || OutsideTrial {
        path: "/out/x".to_owned(),
        relative_path: String::new(),
        worktree_root: "/out/x".to_owned(),
        is_single_file: true,
        opened_path: "/out/x".to_owned(),
        same_bytes: true,
        accesses: vec![FsAccess { reads_directory: false, path: "/out/x".to_owned() }],
        operations: vec!["stat-self".to_owned(), "open-self".to_owned()],
    };
    assert_eq!(check_outside(&trial()), None);
    let faults = [
        (OutsideTrial { relative_path: "x".to_owned(), ..trial() }, OutsideFault::Nested),
        (OutsideTrial { worktree_root: "/out".to_owned(), ..trial() }, OutsideFault::OtherRoot),
        (OutsideTrial { is_single_file: false, ..trial() }, OutsideFault::NotSingleFile),
        (OutsideTrial { opened_path: "/y".to_owned(), ..trial() }, OutsideFault::OtherPath),
        (OutsideTrial { same_bytes: false, ..trial() }, OutsideFault::OtherBytes),
        (OutsideTrial { accesses: Vec::new(), ..trial() }, OutsideFault::NoTrace),
        (
            OutsideTrial { accesses: vec![FsAccess { reads_directory: true, path: "/out".to_owned() }], ..trial() },
            OutsideFault::DirectoryRead,
        ),
        (OutsideTrial { operations: vec!["stat-self".to_owned()], ..trial() }, OutsideFault::NotObserved),
    ];
    for (trial, fault) in faults {
        assert_eq!(check_outside(&trial), Some(fault));
    }
    assert_eq!(alias_paths("/repo")[4], "/repo/src/日本 語.rs");
    let trace = document_trace(1, "abc", false);
    assert_eq!(trace.body_sha256, "ba7816bf8f01cfea414140de5dae2223b00361a396177a9cb410ff61f20015ad");
    assert!(same_trace(&trace, &document_trace(1, "abc", false)));
    assert!(!same_trace(&trace, &document_trace(1, "abd", false)));
}
