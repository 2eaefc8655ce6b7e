use ratatui::buffer::Buffer;
use zec::features::context::{Command, PanelOutcome};
use zec::features::outline_panel::{OutlinePanel, Symbol};
use zec::geometry::{Point, Position, Rect};
use zec::outline_panel::{
    OutlineEntry, OutlineEntryId, OutlineError, OutlinePanelState, OutlinePanelWidget, OutlineSnapshot,
};

fn at(x: u16, y: u16) -> Position {
    Position { x, y }
}

fn point(row: u32) -> Point {
    Point::new(row, 0)
}

fn entry(id: u64, depth: usize, text: &str, start: u32, end: u32) -> OutlineEntry {
    OutlineEntry {
        id: OutlineEntryId(id),
        depth,
        text: text.to_owned(),
        range: point(start)..point(end),
        selection_range: point(start)..point(start),
    }
}

fn snapshot(generation: u64) -> OutlineSnapshot {
    OutlineSnapshot {
        generation,
        source_id: 7,
        title: "main.rs".to_owned(),
        entries: vec![
            entry(1, 0, "module", 0, 20),
            entry(2, 1, "Type", 2, 15),
            entry(3, 2, "method", 5, 10),
            entry(4, 0, "other", 22, 25),
        ],
    }
}

#[test]
fn collapse_filter_follow_and_breadcrumbs_are_deterministic() {
    let mut panel = OutlinePanelState::new(snapshot(1)).unwrap();
    assert_eq!(panel.rows(10).len(), 4);
    assert!(panel.toggle_selected());
    assert_eq!(panel.rows(10).len(), 2);
    panel.set_filter("method".to_owned()).unwrap();
    assert_eq!(panel.selected_entry().unwrap().text, "method");
    assert_eq!(
        panel
            .rows(10)
            .iter()
            .map(|row| row.entry.id)
            .collect::<Vec<_>>(),
        [OutlineEntryId(1), OutlineEntryId(2), OutlineEntryId(3)]
    );
    panel.select_for_cursor(point(7));
    assert_eq!(panel.selected_entry().unwrap().text, "method");
    assert_eq!(panel.breadcrumbs(point(7)), ["module", "Type", "method"]);
}

#[test]
fn bordered_outline_rows_have_stable_mouse_hit_targets() {
    let mut panel = OutlinePanelState::new(snapshot(1)).unwrap();
    let area = Rect::new(40, 3, 32, 8);
    assert_eq!(
        panel.entry_id_at(area, at(41, 4)),
        Some(OutlineEntryId(1))
    );
    assert_eq!(
        panel.entry_id_at(area, at(41, 6)),
        Some(OutlineEntryId(3))
    );
    assert_eq!(panel.entry_id_at(area, at(40, 6)), None);
    panel.select(OutlineEntryId(3)).unwrap();
    assert_eq!(panel.selected_entry().unwrap().text, "method");
}

#[test]
fn stale_or_malformed_snapshots_do_not_replace_state() {
    let mut panel = OutlinePanelState::new(snapshot(2)).unwrap();
    assert!(!panel.apply_snapshot(snapshot(1)).unwrap());
    let mut malformed = snapshot(3);
    malformed.entries[2].depth = 5;
    assert!(panel.apply_snapshot(malformed).is_err());
    assert_eq!(panel.generation(), 2);
    assert_eq!(panel.source_id(), 7);
}

fn refused(change: fn(&mut OutlineSnapshot)) -> Option<OutlineError> {
    let mut malformed = snapshot(1);
    change(&mut malformed);
    OutlinePanelState::new(malformed).err()
}

#[test]
fn malformed_outlines_are_refused() {
    assert_eq!(refused(|outline| outline.generation = 0), Some(OutlineError::GenerationIsZero));
    assert_eq!(refused(|outline| outline.title = "x".repeat(5_000)), Some(OutlineError::TitleTooLarge));
    assert_eq!(refused(|outline| outline.entries[1].id = OutlineEntryId(1)), Some(OutlineError::DuplicateId));
    assert_eq!(refused(|outline| outline.entries[1].text = "a\nb".to_owned()), Some(OutlineError::InvalidText));
    assert_eq!(refused(|outline| outline.entries[1].range = point(9)..point(8)), Some(OutlineError::ReversedRange));
    assert_eq!(
        refused(|outline| outline.entries[1].selection_range = point(9)..point(8)),
        Some(OutlineError::ReversedSelectionRange)
    );
    assert_eq!(refused(|outline| outline.entries[1].depth = 2), Some(OutlineError::SkippedLevel));
    let mut panel = OutlinePanelState::new(snapshot(1)).unwrap();
    assert_eq!(panel.set_filter("x".repeat(5_000)), Err(OutlineError::FilterTooLarge));
    panel.toggle_selected();
    assert_eq!(panel.select(OutlineEntryId(3)), Err(OutlineError::HiddenEntry));
    assert_eq!(
        refused(|outline| {
            let one = outline.entries[3].clone();
            outline.entries = (0..100_001u64)
                .map(|id| OutlineEntry { id: OutlineEntryId(id), ..one.clone() })
                .collect();
        }),
        Some(OutlineError::TooManyEntries)
    );
}

#[test]
fn headings_are_folded_and_left() {
    let mut panel = OutlinePanelState::new(snapshot(1)).unwrap();
    panel.select(OutlineEntryId(3)).unwrap();
    assert!(panel.select_parent());
    assert_eq!(panel.selected_entry().unwrap().text, "Type");
    assert!(panel.collapse_selected());
    assert_eq!(panel.rows(10).len(), 3);
    assert!(panel.expand_selected());
    assert!(panel.toggle_selected());
    assert!(panel.toggle_selected());
    assert_eq!(panel.rows(10).len(), 4);
    assert!(panel.move_selection(10));
    assert_eq!(panel.selected_entry().unwrap().text, "other");
    assert!(!panel.move_selection(1));
    assert!(panel.follow_cursor());
    assert!(!panel.toggle_follow_cursor());
    assert!(!panel.select_for_cursor(point(7)));
    assert_eq!(panel.title(), "main.rs");
    assert_eq!(panel.filter(), "");
}

#[test]
fn outlines_are_drawn_with_their_levels() {
    let panel = OutlinePanelState::new(snapshot(1)).unwrap();
    let mut buffer = Buffer::empty(ratatui::layout::Rect::new(0, 0, 24, 6));
    OutlinePanelWidget::new(&panel).render(Rect::new(0, 0, 24, 6), &mut buffer);
    let row = |y: u16| -> String { (0..24).map(|x| buffer.cell((x, y)).unwrap().symbol()).collect() };
    assert!(row(0).contains("main.rs"), "{}", row(0));
    assert!(row(1).contains("module"), "{}", row(1));
    assert!(row(3).contains("    ") && row(3).contains("method"), "{}", row(3));
}

#[test]
fn the_outline_of_a_buffer_is_walked_by_keys_and_clicks() {
    let symbols: Vec<Symbol> = ["a", "b", "c"]
        .iter()
        .enumerate()
        .map(|(depth, text)| Symbol { depth, text: text.to_string(), point: point(depth as u32) })
        .collect();
    let mut panel = OutlinePanel::default();
    panel.execute(Command::PanelSelectNext, Some(1), &symbols);
    let view = panel.view("file.rs", Some(1), &symbols, 10);
    assert_eq!(view.rows[1].text, "  b");
    assert_eq!(view.selected, Some(1));
    assert!(matches!(
        panel.execute(Command::PanelActivate, Some(1), &symbols),
        PanelOutcome::Jump { point: place, label } if place == point(1) && label == "b"
    ));
    panel.click(2, Some(1), 3);
    assert_eq!(panel.view("file.rs", Some(1), &symbols, 10).selected, Some(2));
    assert_eq!(panel.view("other.rs", Some(2), &symbols, 10).selected, Some(0));
}
