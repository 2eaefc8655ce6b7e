use ratatui::buffer::Buffer;
use zec::features::context::{Command, Ctx, Overlay, PanelOutcome};
use zec::features::git_panel::{GitOperation, GitPanel, GitPanelEvent, Repository};
use zec::geometry::Rect;
use zec::git_panel::{
    branch_title, project_status_entry, sorted_entries, Branch, DiffStat, FileStatus, GitPanelSnapshot,
    GitPanelState, GitPanelWidget, GitSection, RepositorySnapshot, StatusCode, StatusEntry, TrackedStatus, UnmergedStatus,
    UnmergedStatusCode,
};

fn entry(path: &str, status: FileStatus) -> StatusEntry {
    StatusEntry {
        repo_path: path.to_owned(),
        status,
        diff_stat: None,
        staged_diff_stat: None,
        unstaged_diff_stat: None,
    }
}

fn staged(code: StatusCode) -> FileStatus {
    FileStatus::InIndex(TrackedStatus { index_status: code, worktree_status: StatusCode::Unmodified })
}

fn ctx() -> Ctx {
    Ctx { root: Some("/repo".to_owned()), active_item: 1, overlays: Vec::new(), status: None }
}

#[test]
fn partially_staged_files_are_projected_into_both_sections() {
    let projected = project_status_entry(&entry(
        "src/main.rs",
        FileStatus::InIndex(TrackedStatus {
            index_status: StatusCode::Added,
            worktree_status: StatusCode::Modified,
        }),
    ));
    assert_eq!(projected.len(), 2);
    assert_eq!(projected[0].section, GitSection::Staged);
    assert_eq!(projected[0].status_code, 'A');
    assert_eq!(projected[1].section, GitSection::Changes);
    assert_eq!(projected[1].status_code, 'M');
    assert!(!projected[0].should_stage());
    assert!(projected[1].should_stage());
}

#[test]
fn conflicts_and_untracked_files_have_distinct_actions() {
    let conflict = project_status_entry(&entry(
        "conflict.rs",
        FileStatus::Unmerged(UnmergedStatus {
            first_head: UnmergedStatusCode::Updated,
            second_head: UnmergedStatusCode::Updated,
        }),
    ));
    let untracked = project_status_entry(&entry("new.rs", FileStatus::Untracked));
    assert_eq!(conflict[0].section, GitSection::Conflicts);
    assert_eq!(conflict[0].status_code, 'U');
    assert_eq!(untracked[0].section, GitSection::Untracked);
    assert_eq!(untracked[0].status_code, '?');
}

#[test]
fn selection_is_clamped_and_visible_window_tracks_it() {
    let entries = (0..20)
        .map(|index| {
            project_status_entry(&entry(
                &format!("file-{index:02}.rs"),
                FileStatus::worktree(StatusCode::Modified),
            ))
            .remove(0)
        })
        .collect();
    let mut state = GitPanelState::new(GitPanelSnapshot {
        repository_id: 1,
        scan_id: 1,
        repository_name: "repo".to_owned(),
        branch: "main".to_owned(),
        ahead: 0,
        behind: 0,
        entries,
    });
    state.move_selection(100);
    assert_eq!(state.selected(), 19);
    let (start, end) = state.visible_window(5);
    assert_eq!((start, end), (15, 20));
}

#[test]
fn git_files_are_sorted_by_section_and_path() {
    let list = sorted_entries(&vec![
        entry("b.rs", FileStatus::Untracked),
        entry("z/a.rs", FileStatus::worktree(StatusCode::Deleted)),
        entry("a.rs", FileStatus::worktree(StatusCode::Modified)),
        entry("ignored", FileStatus::Ignored),
        entry("s.rs", staged(StatusCode::Renamed)),
    ]);
    let shown: Vec<(GitSection, &str, char)> =
        list.iter().map(|entry| (entry.section, entry.repo_path.as_str(), entry.status_code)).collect();
    assert_eq!(
        shown,
        vec![
            (GitSection::Staged, "s.rs", 'R'),
            (GitSection::Changes, "a.rs", 'M'),
            (GitSection::Changes, "z/a.rs", 'D'),
            (GitSection::Untracked, "b.rs", '?'),
        ]
    );
}

#[test]
fn the_selected_file_stays_selected_over_a_refresh() {
    let status = |paths: &[&str]| {
        GitPanelSnapshot::capture(&RepositorySnapshot {
            id: 1,
            scan_id: 1,
            display_name: "repo".to_owned(),
            branch: None,
            statuses: paths.iter().map(|path| entry(path, FileStatus::worktree(StatusCode::Modified))).collect(),
        })
    };
    let mut state = GitPanelState::new(status(&["b", "c"]));
    assert!(state.has_unstaged());
    state.move_selection(1);
    assert_eq!(state.selected_entry().unwrap().repo_path, "c");
    state.apply_snapshot(status(&["a", "b", "c"]));
    assert_eq!(state.selected_entry().unwrap().repo_path, "c");
    assert_eq!(branch_title(&None), "detached HEAD");
    assert_eq!(branch_title(&Some(Branch { name: "main".to_owned(), tracking: None })), "main");
}

fn repository(statuses: Vec<StatusEntry>) -> Option<Repository> {
    Some(Repository {
        directory: "/repo".to_owned(),
        display_name: "repo".to_owned(),
        branch: Some("main".to_owned()),
        statuses,
    })
}

#[test]
fn git_panel_rows_have_headers_and_counts() {
    let mut changed = entry("a.rs", FileStatus::worktree(StatusCode::Modified));
    changed.unstaged_diff_stat = Some(DiffStat { added: 3, deleted: 1 });
    let repository = repository(vec![changed, entry("new.rs", FileStatus::Untracked)]);
    let mut panel = GitPanel::default();
    let view = panel.view(&repository, 10);
    assert_eq!(view.title, " Git · repo · main ");
    let rows: Vec<(&str, bool)> = view.rows.iter().map(|row| (row.text.as_str(), row.enabled)).collect();
    assert_eq!(
        rows,
        vec![
            ("Changes", false),
            ("  M a.rs  +3 -1", true),
            ("Untracked Files", false),
            ("  ? new.rs  +0 -0", true),
        ]
    );
    assert_eq!(view.selected, Some(1));

    let mut ctx = ctx();
    panel.execute(&mut ctx, Command::PanelSelectNext, &repository);
    assert_eq!(panel.view(&repository, 10).selected, Some(3));
    panel.execute(&mut ctx, Command::PanelSelectNext, &repository);
    assert_eq!(panel.view(&repository, 10).selected, Some(3));
    panel.execute(&mut ctx, Command::PanelSelectPrevious, &repository);
    assert_eq!(panel.view(&repository, 10).selected, Some(1));
    panel.click(&repository, 3);
    assert_eq!(panel.view(&repository, 10).selected, Some(3));
}

#[test]
fn git_panel_asks_for_staging_and_commits() {
    let mut panel = GitPanel::default();
    let mut ctx = ctx();
    let none = panel.execute(&mut ctx, Command::GitStageAll, &None);
    assert!(none.request.is_none());
    assert_eq!(ctx.status.as_deref(), Some("no git repository"));

    let clean = repository(Vec::new());
    panel.execute(&mut ctx, Command::GitToggleStaged, &clean);
    assert_eq!(ctx.status.as_deref(), Some("no entry selected"));
    panel.execute(&mut ctx, Command::GitCommit, &clean);
    assert_eq!(ctx.status.as_deref(), Some("nothing staged to commit"));

    let dirty = repository(vec![entry("a.rs", FileStatus::worktree(StatusCode::Modified))]);
    let request = panel.execute(&mut ctx, Command::GitToggleStaged, &dirty).request.unwrap();
    assert_eq!(request.operation, GitOperation::Stage("a.rs".to_owned()));
    assert_eq!(request.description, "staged a.rs");
    assert!(matches!(
        panel.execute(&mut ctx, Command::PanelActivate, &dirty).outcome,
        PanelOutcome::Open(path) if path == "/repo/a.rs"
    ));

    let ready = repository(vec![entry("a.rs", staged(StatusCode::Added))]);
    let request = panel.execute(&mut ctx, Command::GitToggleStaged, &ready).request.unwrap();
    assert_eq!(request.operation, GitOperation::Unstage("a.rs".to_owned()));
    assert_eq!(request.description, "unstaged a.rs");
    panel.execute(&mut ctx, Command::GitCommit, &ready);
    assert!(matches!(ctx.overlays.last(), Some(Overlay::Prompt { label, .. }) if label == "Commit message"));

    assert_eq!(panel.submit_commit(&mut ctx, "  ", true), None);
    assert!(matches!(
        ctx.overlays.last(),
        Some(Overlay::Prompt { feedback: Some(text), .. }) if text == "enter a commit message"
    ));
    assert_eq!(panel.submit_commit(&mut ctx, "x", false), None);
    assert_eq!(
        panel.submit_commit(&mut ctx, " fix it ", true),
        Some(("fix it".to_owned(), "committed: fix it".to_owned()))
    );
    assert!(ctx.overlays.is_empty());
    panel.update(
        &mut ctx,
        GitPanelEvent::Finished { description: "committed: x".to_owned(), result: Err("hook".to_owned()) },
    );
    assert_eq!(ctx.status.as_deref(), Some("committed: x failed: hook"));
}

fn panel(entries: Vec<StatusEntry>) -> GitPanelState {
    GitPanelState::new(GitPanelSnapshot {
        repository_id: 1,
        scan_id: 1,
        repository_name: "repo".to_owned(),
        branch: "main".to_owned(),
        ahead: 0,
        behind: 0,
        entries: entries.iter().flat_map(project_status_entry).collect(),
    })
}

fn drawn(state: &GitPanelState, height: u16) -> Vec<String> {
    let mut buffer = Buffer::empty(ratatui::layout::Rect::new(0, 0, 30, height));
    GitPanelWidget::new(state, true).render(Rect::new(0, 0, 30, height), &mut buffer);
    let row = |y: u16| (0..30).map(|x| buffer.cell((x, y)).unwrap().symbol()).collect();
    (0..height).map(row).collect()
}

#[test]
fn a_one_row_dock_shows_the_selection() {
    let mut state = panel(vec![entry("file-00.rs", FileStatus::worktree(StatusCode::Modified))]);
    let rows = drawn(&state, 3);
    assert!(rows[0].contains(" Git "), "{rows:?}");
    assert!(rows[1].contains("\u{203a} M  file-00.rs"), "{rows:?}");

    let files = (0..20).map(|index| entry(&format!("file-{index:02}.rs"), FileStatus::worktree(StatusCode::Modified)));
    state = panel(files.collect());
    state.move_selection(7);
    assert!(drawn(&state, 3)[1].contains("\u{203a} M  file-07.rs"));
}

#[test]
fn the_selection_is_shown_beside_the_words_over_its_section() {
    let modified = entry("a.rs", FileStatus::worktree(StatusCode::Modified));
    let mut state = panel(vec![modified, entry("b.rs", FileStatus::Untracked)]);
    state.move_selection(1);
    let rows = drawn(&state, 5);
    assert!(rows[1].contains(GitSection::Untracked.title()), "{rows:?}");
    assert!(rows[2].contains("\u{203a} ?  b.rs"), "{rows:?}");
    assert!(rows[3][3..].trim_end_matches('\u{2502}').trim().is_empty(), "{rows:?}");
    let rows = drawn(&state, 6);
    assert!(rows[1].contains(GitSection::Changes.title()), "{rows:?}");
    assert!(rows[2].contains("  M  a.rs"), "{rows:?}");
    assert!(rows[4].contains("\u{203a} ?  b.rs"), "{rows:?}");
}

#[test]
fn only_drawn_rows_need_a_place_on_the_screen() {
    let state = panel(vec![entry("a.rs", FileStatus::worktree(StatusCode::Modified))]);
    let widget = GitPanelWidget::new(&state, true);
    assert!(widget.fits(Rect::new(0, 0, 40, 10), Rect::new(0, 0, 30, 4)));
    assert!(!widget.fits(Rect::new(0, 2, 40, 10), Rect::new(0, 0, 30, 4)));
    assert!(!widget.fits(Rect::new(0, 0, 40, 10), Rect::new(2, 0, 30, 4)));
    assert!(widget.fits(Rect::new(0, 9, 2, 2), Rect::new(0, 0, 30, 4)));
    let mut buffer = Buffer::empty(ratatui::layout::Rect::new(0, 0, 30, 4));
    GitPanelWidget::new(&state, true).render(Rect::new(0, 0, 40, 10), &mut buffer);
    let row = |y: u16| (0..30).map(|x| buffer.cell((x, y)).unwrap().symbol()).collect::<String>();
    assert!(row(1).contains(GitSection::Changes.title()));
    assert!(row(2).contains("\u{203a} M  a.rs"));
}
