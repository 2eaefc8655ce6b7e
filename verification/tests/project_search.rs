use zec::project_search::{
    apply_edits, replacement_context, validate_non_overlapping, validate_range, CompileError, ContentFingerprint,
    GlobKind,
    ProjectSearchHistory, ProjectSearchOptions, QueryAnswers, QueryHit, ReplaceEditPreview, ReplaceError, ReplaceMatch,
    ReplacePreview, ReplaceScope, ReplaceSourceSnapshot, SearchMode, SearchOptionsError, Syntax,
};

fn options(query: &str, replacement: &str) -> ProjectSearchOptions {
    ProjectSearchOptions {
        query: query.to_owned(),
        replacement: replacement.to_owned(),
        case_sensitive: true,
        ..ProjectSearchOptions::default()
    }
}

fn source(id: u64, path: &str, text: &str) -> ReplaceSourceSnapshot {
    ReplaceSourceSnapshot::new(id, path.to_owned(), text.to_owned(), None)
}

fn selected(source: &ReplaceSourceSnapshot, range: std::ops::Range<usize>) -> ReplaceMatch {
    ReplaceMatch { source: source.identity.clone(), range }
}

/// What a query for plain text says of some sources.
fn literal(query: &str, replacement: &str, sources: &[&ReplaceSourceSnapshot]) -> QueryAnswers {
    let hits = |text: &str| {
        let found = text.match_indices(query);
        found.map(|(start, _)| QueryHit { range: start..start + query.len(), replacement: None }).collect()
    };
    QueryAnswers {
        replacement: Some(replacement.to_owned()),
        contextual: false,
        hits: sources.iter().map(|source| hits(&source.text)).collect(),
    }
}

/// What a query whose replacement refers to the match says of one source.
fn captured(replacement: &str, hits: &[(std::ops::Range<usize>, &str)]) -> QueryAnswers {
    QueryAnswers {
        replacement: Some(replacement.to_owned()),
        contextual: true,
        hits: vec![hits
            .iter()
            .map(|(range, text)| QueryHit { range: range.clone(), replacement: Some(text.to_string()) })
            .collect()],
    }
}

#[test]
fn history_is_bounded_newest_first_and_deduplicated() {
    let mut history = ProjectSearchHistory::new(2);
    history.record(options("one", "1")).unwrap();
    history.record(options("two", "2")).unwrap();
    history.record(options("one", "1")).unwrap();
    assert_eq!(history.entries(), &vec![options("one", "1"), options("two", "2")]);
    history.record(options("three", "3")).unwrap();
    assert_eq!(
        history
            .entries()
            .iter()
            .map(|entry| entry.query.as_str())
            .collect::<Vec<_>>(),
        vec!["three", "one"]
    );
}

#[test]
fn capture_replacement_preview_is_deterministic_and_checked() {
    let source = source(7, "src/data.txt", "alpha=12 beta=7\n");
    let answers = captured("$2:$1", &[(0..8, "12:alpha"), (9..15, "7:beta")]);
    let matches = vec![selected(&source, 0..8), selected(&source, 9..15)];
    let preview = ReplacePreview::build(4, &answers, &vec![source.clone()], matches).unwrap();
    assert_eq!(preview.total_edits, 2);
    let output = preview.apply_checked(4, &vec![source]).unwrap();
    assert_eq!(&*output[0].text, "12:alpha 7:beta\n");
    assert!(output[0].fingerprint.same(&preview.files[0].after));
}

#[test]
fn stale_buffer_or_disk_aborts_the_entire_batch() {
    let mut first = source(1, "a.txt", "old a");
    first.disk = Some(ContentFingerprint::for_bytes(b"old a"));
    let mut second = source(2, "b.txt", "old b");
    second.disk = Some(ContentFingerprint::for_bytes(b"old b"));
    let answers = literal("old", "new", &[&first, &second]);
    let preview = ReplacePreview::build(
        9,
        &answers,
        &vec![first.clone(), second.clone()],
        vec![selected(&first, 0..3), selected(&second, 0..3)],
    )
    .unwrap();

    let changed_second = source(2, "b.txt", "old changed");
    let error = preview
        .apply_checked(9, &vec![first.clone(), changed_second])
        .unwrap_err();
    assert!(error.message().contains("b.txt"));
    assert!(preview.apply_checked(8, &vec![first, second]).is_err());
}

#[test]
fn disk_fingerprint_change_aborts_even_when_buffer_text_matches() {
    let mut before = source(1, "a.txt", "old");
    before.disk = Some(ContentFingerprint::for_bytes(b"old"));
    let answers = literal("old", "new", &[&before]);
    let preview =
        ReplacePreview::build(1, &answers, &vec![before.clone()], vec![selected(&before, 0..3)])
            .unwrap();
    let mut current = before;
    current.disk = Some(ContentFingerprint::for_bytes(b"different disk bytes"));
    assert!(
        preview
            .apply_checked(1, &vec![current])
            .unwrap_err()
            .message()
            .contains("disk fingerprint")
    );
}

#[test]
fn overlap_unknown_source_and_non_match_are_rejected() {
    let primary = source(1, "a.txt", "aaaaa");
    let answers = literal("aaaa", "x", &[&primary]);
    assert!(
        ReplacePreview::build(
            1,
            &answers,
            &vec![primary.clone()],
            vec![selected(&primary, 0..4), selected(&primary, 1..5)]
        )
        .unwrap_err()
        .message()
        .contains("overlap")
    );
    assert!(
        ReplacePreview::build(
            1,
            &answers,
            &vec![primary.clone()],
            vec![selected(&primary, 0..3)]
        )
        .is_err()
    );
    let unknown = source(2, "missing.txt", "aaaa");
    assert!(
        ReplacePreview::build(1, &answers, &vec![primary], vec![selected(&unknown, 0..4)]).is_err()
    );
}

#[test]
fn multiline_capture_replacement_uses_the_exact_match_as_context() {
    let text = "before\nleft\nright\nafter\n";
    let source = source(1, "a.txt", text);
    let range = 7..17;
    assert_eq!(replacement_context(text, &range), Some(("left\nright".to_owned(), 0..10)));
    let answers = captured("$2-$1", &[(range.clone(), "right-left")]);
    let preview =
        ReplacePreview::build(1, &answers, &vec![source.clone()], vec![selected(&source, range)])
            .unwrap();
    assert_eq!(
        &*preview.apply_checked(1, &vec![source]).unwrap()[0].text,
        "before\nright-left\nafter\n"
    );
}

#[test]
fn scopes_select_one_file_or_all_without_reordering() {
    let first = source(1, "a", "x x");
    let second = source(2, "b", "x");
    let matches = vec![
        selected(&first, 0..1),
        selected(&first, 2..3),
        selected(&second, 0..1),
    ];
    assert_eq!(
        ReplaceScope::One(matches[1].clone()).select(&matches),
        vec![matches[1].clone()]
    );
    assert_eq!(
        ReplaceScope::File(first.identity).select(&matches),
        matches[..2]
    );
    assert_eq!(ReplaceScope::All.select(&matches), matches);
}

#[test]
fn options_are_checked_before_they_are_used() {
    let refused = |options: ProjectSearchOptions| options.validate().unwrap_err();
    assert_eq!(options("x", "y").validate(), Ok(()));
    assert_eq!(refused(options("", "y")), SearchOptionsError::EmptyQuery);
    assert_eq!(refused(options(&"x".repeat(65_537), "")), SearchOptionsError::QueryTooLong);
    assert_eq!(refused(options("a\nb", "")), SearchOptionsError::QueryNotOneLine);
    assert_eq!(refused(options("x", &"y".repeat(2_097_153))), SearchOptionsError::ReplacementTooLong);
    assert_eq!(refused(options("x", "\0")), SearchOptionsError::ReplacementHoldsNul);
    let globs = |list: Vec<String>| ProjectSearchOptions { include_globs: list, ..options("x", "") };
    assert_eq!(
        refused(globs(vec!["*".to_owned(); 1_001])),
        SearchOptionsError::TooManyGlobs(GlobKind::Include)
    );
    assert_eq!(refused(globs(vec![String::new()])), SearchOptionsError::EmptyGlob(GlobKind::Include));
    assert_eq!(
        refused(globs(vec!["a\rb".to_owned()])),
        SearchOptionsError::GlobHoldsControl(GlobKind::Include)
    );
    assert_eq!(
        refused(globs(vec!["a".repeat(40_000), "b".repeat(40_000)])),
        SearchOptionsError::GlobsTooLong(GlobKind::Include)
    );
    assert_eq!(
        refused(ProjectSearchOptions { exclude_globs: vec![String::new()], ..options("x", "") }),
        SearchOptionsError::EmptyGlob(GlobKind::Exclude)
    );
    assert_eq!(ProjectSearchOptions::default().mode, SearchMode::Literal);
}

#[test]
fn replacements_are_refused_for_what_is_wrong_with_them() {
    let one = source(1, "a.txt", "aé");
    let build = |generation: u64, answers: &QueryAnswers, sources: Vec<ReplaceSourceSnapshot>, range| {
        ReplacePreview::build(generation, answers, &sources, vec![selected(&one, range)]).unwrap_err()
    };
    let answers = literal("a", "x", &[&one]);
    assert_eq!(build(0, &answers, vec![one.clone()], 0..1), ReplaceError::ZeroGeneration);
    let silent = QueryAnswers { replacement: None, ..literal("a", "x", &[&one]) };
    assert_eq!(build(1, &silent, vec![one.clone()], 0..1), ReplaceError::NoReplacementText);
    assert_eq!(
        build(1, &literal("a", "x", &[&one, &one]), vec![one.clone(), one.clone()], 0..1),
        ReplaceError::DuplicateSource { path: "a.txt".to_owned() }
    );
    assert_eq!(
        build(1, &literal("a", "x", &[&one, &one]), vec![one.clone(), source(1, "b.txt", "")], 0..1),
        ReplaceError::AliasedBuffer { buffer_id: 1 }
    );
    assert_eq!(build(1, &answers, vec![one.clone()], 0..9), ReplaceError::RangeBeyondText);
    assert_eq!(build(1, &answers, vec![one.clone()], 0..2), ReplaceError::RangeSplitsCodepoint);
    assert_eq!(
        validate_range("abc", &std::ops::Range { start: 2, end: 1 }),
        Err(ReplaceError::ReversedRange)
    );
    assert_eq!(
        validate_non_overlapping(&vec![0..2, 1..3]),
        Err(ReplaceError::Overlap { first: 0..2, second: 1..3 })
    );
    assert_eq!(validate_non_overlapping(&vec![0..2, 2..3]), Ok(()));
}

#[test]
fn edits_leave_the_rest_of_the_text_alone() {
    let edit = |range: std::ops::Range<usize>, original: &str, replacement: &str| ReplaceEditPreview {
        range,
        original: original.to_owned(),
        replacement: replacement.to_owned(),
    };
    let edits = vec![edit(1..3, "é", "e"), edit(4..5, "c", "")];
    assert_eq!(apply_edits("aébc!", &edits).unwrap(), "aeb!");
}

#[test]
fn replacements_see_the_whole_line_of_a_match() {
    assert_eq!(replacement_context("ab\ncd ef\ngh", &(6..8)), Some(("cd ef".to_owned(), 3..5)));
}

#[test]
fn fingerprints_tell_texts_apart() {
    let of = |text: &str| ContentFingerprint::for_bytes(text.as_bytes());
    assert_eq!(of("abc").bytes, 3);
    assert!(of("abc").same(&of("abc")));
    assert!(!of("abc").same(&of("abd")));
}

#[test]
fn invalid_regex_and_glob_fail_before_a_query_exists() {
    let fine = Syntax { include_globs: true, exclude_globs: true, query: true };
    let mut invalid_regex = options("(", "x");
    invalid_regex.mode = SearchMode::Regex;
    assert!(
        invalid_regex
            .compile(Syntax { query: false, ..fine })
            .unwrap_err()
            .message()
            .contains("invalid project-search query")
    );

    let mut invalid_glob = options("x", "y");
    invalid_glob.include_globs = vec!["[".into()];
    assert!(
        invalid_glob
            .compile(Syntax { include_globs: false, ..fine })
            .unwrap_err()
            .message()
            .contains("include glob")
    );
    assert_eq!(
        options("x", "y").compile(Syntax { exclude_globs: false, ..fine }).unwrap_err(),
        CompileError::ExcludeGlob
    );
    assert_eq!(
        options("", "y").compile(fine).unwrap_err(),
        CompileError::Options(SearchOptionsError::EmptyQuery)
    );
    let plan = invalid_regex.compile(fine).unwrap();
    assert!(plan.regex && plan.case_sensitive && !plan.one_match_per_line);
    assert_eq!(plan.replacement.as_deref(), Some("x"));
}

#[test]
fn previews_do_not_depend_on_the_order_of_the_matches() {
    let one = source(1, "a.txt", "na\u{ef}ve na\u{ef}ve\n");
    let two = source(2, "b.txt", "x na\u{ef}ve");
    let answers = literal("na\u{ef}ve", "plain", &[&one, &two]);
    let sources = vec![one.clone(), two.clone()];
    let (a, b, c) = (0..6, 7..13, 2..8);
    let build = |matches: Vec<ReplaceMatch>| ReplacePreview::build(1, &answers, &sources, matches).unwrap();
    let first = build(vec![selected(&one, a.clone()), selected(&one, b.clone()), selected(&two, c.clone())]);
    let second = build(vec![
        selected(&two, c.clone()),
        selected(&one, b.clone()),
        selected(&one, a),
        selected(&two, c),
        selected(&one, b),
    ]);
    assert_eq!(first, second);
    let outputs = second.apply_checked(1, &sources).unwrap();
    assert_eq!(outputs[0].text, "plain plain\n");
    assert_eq!(outputs[1].text, "x plain");
}

#[test]
fn a_history_takes_nothing_that_has_a_fault() {
    let mut history = ProjectSearchHistory::new(4);
    history.record(options("one", "1")).unwrap();
    assert!(history.record(options("", "1")).is_err());
    assert!(history.entries().iter().all(|entry| entry.validate().is_ok()));
    assert_eq!(history.entries().len(), 1);
}
