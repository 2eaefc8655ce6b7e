use zec::features::buffer_search::{parse_line_column, search_failed, BufferSearch, BufferSearchEvent, Upkeep};
use zec::features::context::{Ctx, Overlay, PickerEntry, PickerOwner, PickerPayload, PromptTarget};
use zec::features::project_search::{
    build_query, preview, Collector, MatchLine, ProjectSearch, ProjectSearchEvent, SearchOption, SearchReply, SearchOptions, MAX_HITS,
    PREVIEW_CHARS,
};
use zec::features::quick_open::{file_entries, is_blank, Candidate, QuickOpen, QuickOpenEvent};
use zec::geometry::Point;

fn ctx() -> Ctx {
    Ctx { root: Some("/repo".to_owned()), active_item: 1, overlays: Vec::new(), status: None }
}

fn feedback(ctx: &Ctx) -> Option<&str> {
    match ctx.overlays.last() {
        Some(Overlay::Prompt { feedback, .. }) => feedback.as_deref(),
        _ => None,
    }
}

fn entries(ctx: &Ctx) -> Vec<(&str, &str, bool)> {
    match ctx.overlays.last() {
        Some(Overlay::Picker { list, .. }) => {
            list.entries.iter().map(|entry| (entry.label.as_str(), entry.detail.as_str(), entry.enabled)).collect()
        }
        other => panic!("expected a picker, not {other:?}"),
    }
}

#[test]
fn line_and_column_are_one_based() {
    assert_eq!(parse_line_column("1"), Some((0, 0)));
    assert_eq!(parse_line_column(" 12 : 4 "), Some((11, 3)));
    assert_eq!(parse_line_column("0"), None);
    assert_eq!(parse_line_column("3:0"), None);
    assert_eq!(parse_line_column("x"), None);
    assert_eq!(parse_line_column(""), None);
}

#[test]
fn options_describe_only_the_active_ones() {
    let mut options = SearchOptions::default();
    assert_eq!(options.describe(), None);
    options.toggle(SearchOption::Regex);
    options.toggle(SearchOption::WholeWord);
    assert_eq!(options.describe().as_deref(), Some("regex, whole word"));
    options.toggle(SearchOption::Regex);
    assert_eq!(options.describe().as_deref(), Some("whole word"));
}

#[test]
fn previews_are_trimmed_and_bounded() {
    assert_eq!(preview("  fn main() {}  \n"), "fn main() {}");
    let long = "x".repeat(PREVIEW_CHARS + 5);
    let preview = preview(&long);
    assert_eq!(preview.chars().count(), PREVIEW_CHARS + 1);
    assert!(preview.ends_with('…'));
}

#[test]
fn finding_searches_as_the_text_changes() {
    let mut ctx = ctx();
    let mut search = BufferSearch::default();
    let upkeep = search.find(&mut ctx, "ab");
    assert_eq!(upkeep, Upkeep { clear: None, search: Some(1) });
    assert!(matches!(
        ctx.overlays.last(),
        Some(Overlay::Prompt { label, line, target: PromptTarget::Find, feedback: None })
            if label == "Find" && line.text() == "ab"
    ));
    assert_eq!(search.query_changed("abc"), Upkeep { clear: None, search: Some(2) });
    assert!(!search.accepts(&ctx, 1));
    assert!(search.accepts(&ctx, 2));
    search.update(&mut ctx, BufferSearchEvent::Matches { generation: 1, matches: 9 }, Some(0), 7);
    assert_eq!(feedback(&ctx), None);
    search.update(&mut ctx, BufferSearchEvent::Matches { generation: 2, matches: 3 }, Some(1), 7);
    assert_eq!(feedback(&ctx), Some("2 of 3"));
    assert_eq!(search.current(), Some(1));
    search.step(&mut ctx, Some(2));
    assert_eq!(feedback(&ctx), Some("3 of 3"));
    assert_eq!(search.query_changed(""), Upkeep { clear: Some(7), search: None });
    search.step(&mut ctx, None);
    assert_eq!(feedback(&ctx), Some("no matches"));
}

#[test]
fn replacing_tells_how_many_it_touched_once() {
    let mut ctx = ctx();
    let mut search = BufferSearch::default();
    search.replace(&mut ctx, 7, "");
    assert_eq!(feedback(&ctx), Some("search first, then replace"));
    search.query_changed("a");
    search.update(&mut ctx, BufferSearchEvent::Matches { generation: 2, matches: 2 }, Some(0), 7);
    assert_eq!(search.replace(&mut ctx, 7, ""), Upkeep { clear: None, search: None });
    assert_eq!(feedback(&ctx), Some("1 of 2"));
    assert_eq!(search.replace_current(&mut ctx, Err("bad".to_owned())), None);
    assert_eq!(feedback(&ctx), Some("invalid search: bad"));
    let (index, generation) = search.replace_current(&mut ctx, Ok(())).unwrap();
    assert_eq!((index, generation), (0, 3));
    search.update(&mut ctx, BufferSearchEvent::Matches { generation: 3, matches: 1 }, None, 7);
    assert_eq!(feedback(&ctx), Some("replaced 1; 1 matches"));
    assert_eq!(search.replace_all(&mut ctx, Ok(())), Some(4));
    search.update(&mut ctx, BufferSearchEvent::Matches { generation: 4, matches: 0 }, None, 7);
    assert_eq!(feedback(&ctx), Some("replaced 1; no matches"));
    assert_eq!(search.replace_all(&mut ctx, Ok(())), None);
    assert_eq!(feedback(&ctx), Some("no matches to replace"));
    assert_eq!(search.replace_current(&mut ctx, Ok(())), None);
    assert_eq!(feedback(&ctx), Some("no match to replace"));
    search_failed(&mut ctx, "bad");
    assert_eq!(feedback(&ctx), Some("invalid search: bad"));
    assert_eq!(search.cancel(), Some(7));
    assert_eq!(search.cancel(), None);
}

#[test]
fn lines_are_gone_to_by_number() {
    let mut ctx = ctx();
    let mut search = BufferSearch::default();
    search.go_to_line(&mut ctx);
    assert_eq!(search.go_to(&mut ctx, "x"), None);
    assert_eq!(feedback(&ctx), Some("enter a line, or line:column"));
    assert_eq!(search.go_to(&mut ctx, "3:2"), Some(Point::new(2, 1)));
    search.gone_to(&mut ctx, 2, Err("gone".to_owned()));
    assert_eq!(feedback(&ctx), Some("go to line failed: gone"));
    search.gone_to(&mut ctx, 2, Ok(()));
    assert!(ctx.overlays.is_empty());
    assert_eq!(ctx.status.as_deref(), Some("line 3"));
}

#[test]
fn toggled_options_show_after_the_text() {
    let mut ctx = ctx();
    let mut search = ProjectSearch::default();
    assert_eq!(search.toggle(&mut ctx, SearchOption::CaseSensitive), None);
    assert_eq!(ctx.status.as_deref(), Some("project search options: match case"));
    search.open(&mut ctx);
    assert_eq!(feedback(&ctx), Some("match case"));
    assert_eq!(search.toggle(&mut ctx, SearchOption::CaseSensitive), None);
    assert_eq!(feedback(&ctx), None);
    search.toggle(&mut ctx, SearchOption::Regex);
    ctx.set_feedback("other");
    search.query_changed(&mut ctx);
    assert_eq!(feedback(&ctx), Some("regex"));
    assert!(search.options().regex);
    assert_eq!(search.submit(&mut ctx, "(", Err("unclosed".to_owned())), None);
    assert_eq!(feedback(&ctx), Some("invalid pattern: unclosed"));
    assert_eq!(search.submit(&mut ctx, "  ", Ok(())), None);
    assert_eq!(search.submit(&mut ctx, "a", Ok(())), Some(1));
    assert!(ctx.has_picker(PickerOwner::ProjectSearch));
    assert_eq!(search.toggle(&mut ctx, SearchOption::Regex).as_deref(), Some("a"));
}

#[test]
fn matches_are_listed_by_path_and_place() {
    let line = |row: u32, text: &str| MatchLine { row, column: 2, line: text.to_owned() };
    let mut collector = Collector::new();
    assert!(collector.add_file("/repo/b.rs", &vec![line(4, " late "), line(1, "early")]));
    assert!(collector.add_file("/repo/a/z.rs", &vec![line(0, "first")]));
    let list = collector.entries(&Some("/repo".to_owned()));
    let labels: Vec<(&str, &str)> =
        list.iter().map(|entry| (entry.label.as_str(), entry.detail.as_str())).collect();
    assert_eq!(labels, vec![("a/z.rs:1", "first"), ("b.rs:2", "early"), ("b.rs:5", "late")]);
    assert_eq!(
        list[0].payload,
        PickerPayload::Location { path: "/repo/a/z.rs".to_owned(), row: 0, column: 2 }
    );
    assert!(!collector.truncated());

    let many = (0..MAX_HITS as u32 + 1).map(|row| line(row, "x")).collect();
    assert!(!collector.add_file("/repo/c.rs", &many));
    assert!(collector.truncated());
    assert_eq!(collector.entries(&None).len(), MAX_HITS);
    let mut stopped = Collector::new();
    assert!(stopped.take(SearchReply::Busy));
    assert!(stopped.take(SearchReply::File { path: None, lines: vec![line(0, "x")] }));
    assert!(stopped.take(SearchReply::File { path: Some("/repo/a.rs".to_owned()), lines: vec![line(0, "x")] }));
    assert!(!stopped.take(SearchReply::LimitReached));
    let ProjectSearchEvent::Results { generation, query, entries, truncated } =
        stopped.results(3, "x", &Some("/repo".to_owned()));
    assert_eq!((generation, query.as_str(), truncated), (3, "x", true));
    assert_eq!(entries.len(), 1);
    assert_eq!(entries[0].label, "a.rs:1");
}

#[test]
fn results_of_an_earlier_search_are_dropped() {
    let mut ctx = ctx();
    let mut search = ProjectSearch::default();
    let hit = || PickerEntry {
        label: "a.rs:1".to_owned(),
        detail: "x".to_owned(),
        enabled: true,
        payload: PickerPayload::Index(0),
    };
    let results = |generation: u64, entries: Vec<PickerEntry>, truncated: bool| ProjectSearchEvent::Results {
        generation,
        query: "x".to_owned(),
        entries,
        truncated,
    };
    search.submit(&mut ctx, "x", Ok(()));
    search.submit(&mut ctx, "x", Ok(()));
    search.update(&mut ctx, results(1, vec![hit()], false));
    assert!(entries(&ctx).is_empty());
    search.update(&mut ctx, results(2, vec![hit()], true));
    assert_eq!(
        entries(&ctx),
        vec![("a.rs:1", "x", true), ("more than 1000 matches; refine the search", "", false)]
    );
    search.update(&mut ctx, results(2, Vec::new(), false));
    assert!(ctx.overlays.is_empty());
    assert_eq!(ctx.status.as_deref(), Some("no matches for x"));
}

#[test]
fn files_are_listed_for_opening() {
    let mut ctx = ctx();
    let mut quick = QuickOpen::default();
    ctx.root = None;
    assert_eq!(quick.open(&mut ctx), None);
    assert_eq!(ctx.status.as_deref(), Some("quick open needs a directory root"));
    ctx.root = Some("/repo".to_owned());
    assert_eq!(quick.open(&mut ctx), Some(1));
    assert_eq!(quick.query_changed(), 2);
    let list = || file_entries(&vec![Candidate { root: "/repo".to_owned(), relative: "src/a.rs".to_owned() }]);
    assert_eq!(list()[0].payload, PickerPayload::Path("/repo/src/a.rs".to_owned()));
    quick.update(&mut ctx, QuickOpenEvent::Matches { generation: 1, entries: list() });
    assert!(entries(&ctx).is_empty());
    quick.update(&mut ctx, QuickOpenEvent::Matches { generation: 2, entries: list() });
    assert_eq!(entries(&ctx), vec![("src/a.rs", "", true)]);
    let many = (0..150).map(|index| Candidate { root: "/r".to_owned(), relative: index.to_string() }).collect();
    assert_eq!(file_entries(&many).len(), 100);
    assert!(is_blank(" \t"));
    assert!(!is_blank(" a "));
}

#[test]
fn queries_carry_the_options() {
    let literal = build_query("a.b", SearchOptions::default(), Ok(())).unwrap();
    assert!(!literal.regex);
    assert!(!literal.case_sensitive);
    assert!(!literal.whole_word);

    let options = SearchOptions { regex: true, case_sensitive: true, whole_word: true };
    let regex = build_query("a.b", options, Ok(())).unwrap();
    assert!(regex.regex);
    assert!(regex.case_sensitive);
    assert!(regex.whole_word);

    assert!(build_query("(", options, Err("unclosed group".to_owned())).is_err());
    let mut search = BufferSearch::default();
    search.query_changed("old");
    let query = search.query(Some("new"));
    assert_eq!((query.text.as_str(), query.replacement.as_deref()), ("old", Some("new")));
}
