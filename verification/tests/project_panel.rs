use ratatui::buffer::Buffer;
use zec::geometry::{Position, Rect};
use zec::project_panel::{
    plan_mutation, resolve_beneath, step_up, validate_mutation_relative_path, validate_relative_path, FileKind, MutationKind,
    PanelEntry, PanelEntryKind, PanelError, PanelSnapshot, ProjectEntryId, ProjectPanelState, ProjectPanelWidget,
    ResolvedPath, SourceFacts, TargetFacts,
};

fn at(x: u16, y: u16) -> Position {
    Position { x, y }
}

fn id(value: u64) -> ProjectEntryId {
    ProjectEntryId(value)
}

fn entry(value: u64, path: &str, kind: PanelEntryKind) -> PanelEntry {
    PanelEntry {
        id: id(value),
        path: path.to_owned(),
        kind,
        ignored: false,
        hidden: false,
        external: false,
        private: false,
        fifo: false,
    }
}

fn snapshot(generation: u64) -> PanelSnapshot {
    PanelSnapshot {
        generation,
        entries: vec![
            entry(1, "", PanelEntryKind::Directory),
            entry(2, "src", PanelEntryKind::Directory),
            entry(3, "src/main.rs", PanelEntryKind::File),
            entry(4, "src/lib.rs", PanelEntryKind::File),
            entry(5, "README.md", PanelEntryKind::File),
        ],
    }
}

#[test]
fn expansion_filter_selection_and_virtualization_are_deterministic() {
    let mut panel = ProjectPanelState::new(snapshot(1)).unwrap();
    assert_eq!(
        panel.rows(10).iter().map(|row| row.id).collect::<Vec<_>>(),
        [id(1), id(2), id(5)]
    );
    panel.toggle_expanded(id(2)).unwrap();
    panel.select(id(4)).unwrap();
    assert_eq!(panel.selected_entry().path, "src/lib.rs");
    panel.set_filter("main".to_owned()).unwrap();
    assert_eq!(
        panel.rows(2).iter().map(|row| row.id).collect::<Vec<_>>(),
        [id(2), id(3)]
    );
    assert_eq!(panel.rows(2).iter().filter(|row| row.selected).count(), 1);
    assert!(panel.move_selection(-1));
    assert_eq!(panel.selected_entry().id, id(2));
}

#[test]
fn filtering_moves_the_root_selection_to_the_first_real_match() {
    let mut panel = ProjectPanelState::new(snapshot(1)).unwrap();
    assert_eq!(panel.selected_entry().id, id(1));
    panel.set_filter("main.rs".to_owned()).unwrap();
    assert_eq!(panel.selected_entry().id, id(3));
}

#[test]
fn bordered_panel_rows_have_stable_mouse_hit_targets() {
    let mut panel = ProjectPanelState::new(snapshot(1)).unwrap();
    let area = Rect::new(10, 5, 30, 8);
    assert_eq!(panel.entry_id_at(area, at(11, 6)), Some(id(1)));
    assert_eq!(panel.entry_id_at(area, at(11, 7)), Some(id(2)));
    assert_eq!(panel.entry_id_at(area, at(10, 7)), None);
    panel.select(id(2)).unwrap();
    panel.toggle_expanded(id(2)).unwrap();
    assert_eq!(panel.entry_id_at(area, at(11, 8)), Some(id(4)));
}

#[test]
fn stale_snapshot_is_ignored_and_removed_selection_falls_back_to_parent() {
    let mut panel = ProjectPanelState::new(snapshot(2)).unwrap();
    panel.toggle_expanded(id(2)).unwrap();
    panel.select(id(3)).unwrap();
    assert!(!panel.apply_snapshot(snapshot(1)).unwrap());
    let mut updated = snapshot(3);
    updated.entries.retain(|entry| entry.id != id(3));
    assert!(panel.apply_snapshot(updated).unwrap());
    assert_eq!(panel.selected_entry().id, id(2));
    assert_eq!(panel.generation(), 3);
}

#[test]
fn ignored_hidden_and_special_entries_have_explicit_visibility_and_capability() {
    let mut data = snapshot(1);
    data.entries[3].ignored = true;
    data.entries[4].hidden = true;
    data.entries.push(PanelEntry {
        fifo: true,
        ..entry(6, "pipe", PanelEntryKind::File)
    });
    let mut panel = ProjectPanelState::new(data).unwrap();
    assert_eq!(panel.rows(20).len(), 3);
    panel.set_show_ignored(true);
    panel.set_show_hidden(true);
    panel.toggle_expanded(id(2)).unwrap();
    assert_eq!(panel.rows(20).len(), 6);
    assert!(!panel.entry(id(6)).unwrap().openable());
}

#[test]
fn reveal_expands_ancestors_and_preserves_zed_entry_identity() {
    let mut panel = ProjectPanelState::new(snapshot(1)).unwrap();
    assert_eq!(panel.reveal_path("src/main.rs").unwrap(), id(3));
    assert_eq!(panel.selected_entry().id, id(3));
    assert!(panel.is_expanded(id(2)));
}

#[test]
fn malformed_snapshot_is_rejected_without_replacing_last_good_state() {
    let mut panel = ProjectPanelState::new(snapshot(1)).unwrap();
    let mut invalid = snapshot(2);
    invalid
        .entries
        .push(entry(6, "missing/child", PanelEntryKind::File));
    assert!(panel.apply_snapshot(invalid).is_err());
    assert_eq!(panel.generation(), 1);
    assert_eq!(panel.entry_count(), 5);
}

const ROOT: &str = "/project";

/// A path beneath the root of which everything but the last names exists.
fn resolved(relative: &str, existing: &str, missing: &[&str]) -> ResolvedPath {
    ResolvedPath {
        relative: relative.to_owned(),
        existing: existing.to_owned(),
        missing: missing.iter().rev().map(|name| name.to_string()).collect(),
    }
}

fn source(relative: &str, kind: FileKind) -> Option<SourceFacts> {
    Some(SourceFacts { path: resolved(relative, &format!("{ROOT}/{relative}"), &[]), kind })
}

fn target(relative: &str, existing: &str, missing: &[&str], siblings: &[&str]) -> Option<TargetFacts> {
    Some(TargetFacts {
        path: resolved(relative, existing, missing),
        exists: missing.is_empty(),
        parent_is_directory: true,
        siblings: siblings.iter().map(|name| name.to_string()).collect(),
    })
}

#[test]
fn mutation_plans_are_canonical_trust_gated_and_shape_checked() {
    assert!(plan_mutation(ROOT, MutationKind::Delete, &source("src/main.rs", FileKind::File), &None, false).is_err());
    let rename = plan_mutation(
        ROOT,
        MutationKind::Rename,
        &source("src/main.rs", FileKind::File),
        &target("src/app.rs", "/project/src", &["app.rs"], &["main.rs"]),
        true,
    )
    .unwrap();
    assert_eq!(rename.kind, MutationKind::Rename);
    assert!(rename.requires_confirmation);
    assert!(rename.source.unwrap().ends_with("src/main.rs"));
    assert!(rename.target.unwrap().ends_with("src/app.rs"));
    let create_directory = plan_mutation(
        ROOT,
        MutationKind::CreateDirectory,
        &None,
        &target("src/nested", "/project/src", &["nested"], &["main.rs"]),
        true,
    )
    .unwrap();
    assert!(create_directory.requires_confirmation);
    let copy = plan_mutation(
        ROOT,
        MutationKind::Copy,
        &source("src/main.rs", FileKind::File),
        &target("src/copied.rs", "/project/src", &["copied.rs"], &["main.rs"]),
        true,
    )
    .unwrap();
    assert!(copy.requires_confirmation);
    assert!(
        plan_mutation(
            ROOT,
            MutationKind::CreateFile,
            &source("src/main.rs", FileKind::File),
            &target("other", "/project", &["other"], &["src"]),
            true,
        )
        .is_err()
    );
}

#[test]
fn mutation_targets_never_overwrite_or_case_fold_collide() {
    assert!(
        plan_mutation(
            ROOT,
            MutationKind::CreateFile,
            &None,
            &target("src/main.rs", "/project/src/main.rs", &[], &["main.rs", "Already.rs"]),
            true,
        )
        .unwrap_err()
        .message()
        .contains("already exists")
    );
    assert!(
        plan_mutation(
            ROOT,
            MutationKind::Copy,
            &source("src/main.rs", FileKind::File),
            &target("src/already.rs", "/project/src", &["already.rs"], &["main.rs", "Already.rs"]),
            true,
        )
        .unwrap_err()
        .message()
        .contains("case-fold collision")
    );
}

#[test]
fn symlink_and_metadata_escape_mutations_are_rejected() {
    let create = |facts: Option<TargetFacts>| plan_mutation(ROOT, MutationKind::CreateFile, &None, &facts, true);
    assert_eq!(
        create(target("escape/stolen", "/outside", &["stolen"], &[])),
        Err(PanelError::EscapesThroughSymlink)
    );
    assert_eq!(
        create(target(".git/config", "/project/.git", &["config"], &[])),
        Err(PanelError::MetadataPath)
    );
    assert!(create(target("../outside", "/", &["outside"], &[])).is_err());
}

#[test]
fn symlink_and_fifo_sources_are_rejected() {
    for (name, kind, error) in [
        ("alias.txt", FileKind::Symlink, PanelError::SourceIsSymlink),
        ("pipe", FileKind::Special, PanelError::SourceIsSpecial),
    ] {
        assert_eq!(
            plan_mutation(ROOT, MutationKind::Delete, &source(name, kind), &None, true),
            Err(error),
            "special source {name} must be rejected"
        );
    }
}

#[test]
fn paths_resolve_beneath_the_root_only() {
    assert_eq!(
        resolve_beneath(ROOT, &resolved("a/b/c", "/project/a", &["b", "c"]), false).unwrap(),
        "/project/a/b/c"
    );
    assert_eq!(
        resolve_beneath(ROOT, &resolved("a/b", "/project/a", &["b"]), true),
        Err(PanelError::SourceDoesNotExist)
    );
    assert_eq!(
        resolve_beneath(ROOT, &resolved("a/b", "/projects/a", &["b"]), false),
        Err(PanelError::EscapesThroughSymlink)
    );
}

#[test]
fn odd_paths_are_refused() {
    assert_eq!(validate_relative_path("a/b", false), Ok(()));
    assert_eq!(validate_relative_path("", true), Ok(()));
    assert_eq!(validate_relative_path("", false), Err(PanelError::PathIsEmpty));
    assert_eq!(validate_relative_path("/a", false), Err(PanelError::PathIsAbsolute));
    assert_eq!(validate_relative_path("a/../b", false), Err(PanelError::OddComponent));
    assert_eq!(validate_mutation_relative_path("a/.git/b"), Err(PanelError::MetadataPath));
    assert_eq!(validate_mutation_relative_path("a.git"), Ok(()));
}

fn changed(change: fn(&mut PanelSnapshot)) -> Option<PanelError> {
    let mut malformed = snapshot(1);
    change(&mut malformed);
    ProjectPanelState::new(malformed).err()
}

#[test]
fn malformed_trees_are_refused() {
    assert_eq!(changed(|tree| tree.generation = 0), Some(PanelError::InitialSnapshotIsStale));
    assert_eq!(changed(|tree| tree.entries.clear()), Some(PanelError::EntryCount));
    assert_eq!(changed(|tree| tree.entries[1].path = "/src".into()), Some(PanelError::PathIsAbsolute));
    assert_eq!(changed(|tree| tree.entries[1].path = "a/../b".into()), Some(PanelError::OddComponent));
    assert_eq!(changed(|tree| tree.entries[1].id = id(1)), Some(PanelError::DuplicateId));
    assert_eq!(changed(|tree| tree.entries[3].path = "src/main.rs".into()), Some(PanelError::DuplicatePath));
    assert_eq!(changed(|tree| tree.entries[0].kind = PanelEntryKind::File), Some(PanelError::RootIsNoDirectory));
    assert_eq!(changed(|tree| tree.entries[0].path = "x".into()), Some(PanelError::RootCount));
    assert_eq!(
        changed(|tree| tree.entries[1].path = "elsewhere".into()).map(|error| error.message()),
        Some("entry src/main.rs has no parent".to_owned())
    );
    assert_eq!(changed(|tree| tree.entries[1].kind = PanelEntryKind::File), Some(PanelError::ParentIsNoDirectory));
}

#[test]
fn panels_refuse_what_is_not_there() {
    let mut panel = ProjectPanelState::new(snapshot(1)).unwrap();
    assert_eq!(panel.toggle_expanded(id(9)), Err(PanelError::UnknownEntry(id(9))));
    assert_eq!(panel.select(id(3)), Err(PanelError::HiddenEntry));
    assert_eq!(panel.toggle_expanded(id(5)), Err(PanelError::FileCannotExpand));
    assert_eq!(panel.reveal_path("none"), Err(PanelError::NotIndexed("none".to_owned())));
    assert_eq!(panel.set_filter("x".repeat(5_000)), Err(PanelError::FilterTooLarge));
}

#[test]
fn remote_changes_are_planned_from_the_panel_alone() {
    let panel = ProjectPanelState::new(snapshot(1)).unwrap();
    let plan = |kind: MutationKind, from: Option<&str>, to: Option<&str>| {
        panel.plan_remote_mutation("/srv/app", kind, from, to, true)
    };
    let renamed = plan(MutationKind::Rename, Some("src/main.rs"), Some("src/app.rs")).unwrap();
    assert_eq!(renamed.source.as_deref(), Some("/srv/app/src/main.rs"));
    assert_eq!(renamed.target.as_deref(), Some("/srv/app/src/app.rs"));
    assert_eq!(
        panel.plan_remote_mutation("/srv/app", MutationKind::Delete, Some("src/main.rs"), None, false),
        Err(PanelError::Untrusted)
    );
    assert_eq!(
        plan(MutationKind::Delete, Some("gone"), None),
        Err(PanelError::MissingSource("gone".to_owned()))
    );
    assert_eq!(plan(MutationKind::CreateFile, None, Some("src/main.rs")), Err(PanelError::TargetExists));
    assert_eq!(
        plan(MutationKind::CreateFile, None, Some("none/x")),
        Err(PanelError::MissingTargetParent("none".to_owned()))
    );
    assert_eq!(
        plan(MutationKind::CreateFile, None, Some("README.md/x")),
        Err(PanelError::TargetParentIsNoDirectory)
    );
    assert_eq!(plan(MutationKind::CreateFile, None, Some("readme.MD")), Err(PanelError::CaseFoldCollision));
    assert_eq!(plan(MutationKind::CreateFile, None, None), Err(PanelError::CreateNeedsOnlyATarget));
    assert_eq!(plan(MutationKind::Copy, Some("README.md"), None), Err(PanelError::MoveNeedsBoth));
    assert_eq!(
        plan(MutationKind::Delete, Some("README.md"), Some("x")),
        Err(PanelError::DeleteNeedsOnlyASource)
    );
}

#[test]
fn project_panels_are_drawn_with_their_levels() {
    let mut panel = ProjectPanelState::new(snapshot(1)).unwrap();
    panel.toggle_expanded(id(2)).unwrap();
    let mut buffer = Buffer::empty(ratatui::layout::Rect::new(0, 0, 30, 8));
    ProjectPanelWidget::new(&panel).render(Rect::new(0, 0, 30, 8), &mut buffer);
    let row = |y: u16| -> String { (0..30).map(|x| buffer.cell((x, y)).unwrap().symbol()).collect() };
    assert!(row(2).contains("src"), "{}", row(2));
    assert!(row(3).contains("lib.rs"), "{}", row(3));
    assert!(row(4).contains("main.rs"), "{}", row(4));
    assert!(row(5).contains("README.md"), "{}", row(5));
}

#[test]
fn a_path_is_left_by_its_last_name() {
    let up = |path: &str| step_up(path).unwrap();
    let pair = |above: &str, name: &str| (above.to_owned(), name.to_owned());
    assert_eq!(up("a/b/c"), pair("a/b", "c"));
    assert_eq!(up("a//b/./"), pair("a", "b"));
    assert_eq!(up("a"), pair("", "a"));
    assert_eq!(up("/repo/a"), pair("/repo", "a"));
    assert_eq!(up("/repo"), pair("/", "repo"));
    for path in ["", "/", "a/..", "."] {
        assert_eq!(step_up(path), Err(PanelError::NoExistingAncestor));
    }
    assert_eq!(PanelError::NoExistingAncestor.message(), "mutation target has no existing ancestor");
}
