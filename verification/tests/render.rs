use ratatui::buffer::Buffer;
use ratatui::style::{Color, Modifier, Style};
use zec::geometry::{Position, Rect};
use zec::render::{
    closest_text_byte_column, BackgroundRange, CellDecoration, Cursor, EditorWidget, InlineAnnotation,
    OverlayPanelWidget, OverlayRow, OverlaySnapshot, RenderSnapshot, SelectionRange, StyleSpan, TextPosition, Viewport,
};

fn blank(area: Rect) -> Buffer {
    Buffer::empty(ratatui::layout::Rect::new(area.x, area.y, area.width, area.height))
}

fn at(x: u16, y: u16) -> Position {
    Position { x, y }
}

fn row(buf: &Buffer, y: u16) -> String {
    (buf.area.x..buf.area.right())
        .map(|x| buf.cell((x, y)).expect("cell inside buffer").symbol())
        .collect()
}

#[test]
fn renders_scrolled_body_and_status() {
    let snapshot = RenderSnapshot {
        first_row: 0,
        total_rows: 3,
        lines: vec!["zero".into(), "one".into(), "two".into()],
        line_numbers: Vec::new(),
        widest_line_number: 0,
        cursor: Some(Cursor { row: 2, column: 1 }),
        secondary_cursors: Vec::new(),
        cursor_line_number: None,
        selections: Vec::new(),
        text_style: Style::default(),
        gutter_style: Style::default(),
        line_styles: Vec::new(),
        background_ranges: Vec::new(),
        cell_decorations: Vec::new(),
        inline_annotations: Vec::new(),
        viewport: Viewport {
            top_row: 1,
            left_column: 0,
        },
        status: "NORMAL".into(),
        status_cursor_column: None,
        overlay: None,
    };
    let area = Rect::new(0, 0, 20, 4);
    let mut buf = blank(area);

    EditorWidget::new(&snapshot).render(area, &mut buf);

    assert!(row(&buf, 0).starts_with("one"));
    assert!(row(&buf, 1).starts_with("two"));
    assert!(row(&buf, 2).trim().is_empty());
    assert!(row(&buf, 3).starts_with("NORMAL  Ln 3, Col 2"));
    assert!(
        buf.cell((19, 3))
            .expect("status cell")
            .modifier
            .contains(Modifier::REVERSED)
    );
}

#[test]
fn renders_secondary_cursors_and_reports_the_total_cursor_count() {
    let snapshot = RenderSnapshot {
        first_row: 0,
        total_rows: 1,
        lines: vec!["abc".into()],
        cursor: Some(Cursor { row: 0, column: 0 }),
        secondary_cursors: vec![Cursor { row: 0, column: 2 }],
        ..RenderSnapshot::default()
    };
    let area = Rect::new(0, 0, 24, 2);
    let mut buf = blank(area);

    EditorWidget::new(&snapshot).render(area, &mut buf);

    let cursor = buf.cell((2, 0)).expect("secondary cursor cell");
    assert!(cursor.modifier.contains(Modifier::REVERSED));
    assert!(cursor.modifier.contains(Modifier::BOLD));
    assert!(row(&buf, 1).contains("2 cursors"));
}

#[test]
fn renders_right_aligned_line_numbers_with_scroll_and_unnumbered_rows() {
    let snapshot = RenderSnapshot {
        lines: vec![
            "ten".into(),
            "block".into(),
            "forty-two".into(),
            "hundred-five".into(),
        ],
        line_numbers: vec![Some(10), None, Some(42), Some(105)],
        widest_line_number: 999,
        cursor: Some(Cursor { row: 3, column: 1 }),
        text_style: Style::new().fg(Color::White),
        gutter_style: Style::new().fg(Color::Yellow),
        viewport: Viewport {
            top_row: 1,
            left_column: 0,
        },
        status: "NORMAL".into(),
        ..RenderSnapshot::default()
    };
    let area = Rect::new(0, 0, 30, 4);
    let mut buf = blank(area);

    EditorWidget::new(&snapshot).render(area, &mut buf);

    assert!(row(&buf, 0).starts_with("    block"));
    assert!(row(&buf, 1).starts_with(" 42 forty-two"));
    assert!(row(&buf, 2).starts_with("105 hundred-five"));
    assert!(row(&buf, 3).starts_with("NORMAL  Ln 105, Col 2"));
    assert_eq!(buf.cell((2, 1)).expect("line number").fg, Color::Yellow);
    assert_eq!(buf.cell((4, 1)).expect("document text").fg, Color::White);
}

#[test]
fn maps_terminal_cells_to_display_byte_positions() {
    let snapshot = RenderSnapshot {
        lines: vec!["zero".into(), "a界e\u{301}".into(), "tail".into()],
        line_numbers: vec![Some(1), Some(2), Some(3)],
        widest_line_number: 99,
        viewport: Viewport {
            top_row: 1,
            left_column: 1,
        },
        ..RenderSnapshot::default()
    };
    let area = Rect::new(10, 5, 8, 4);
    let widget = EditorWidget::new(&snapshot);

    assert_eq!(
        widget.text_position_at(area, at(13, 5)),
        Some(TextPosition {
            row: 1,
            byte_column: 1,
        })
    );
    assert_eq!(
        widget.text_position_at(area, at(14, 5)),
        Some(TextPosition {
            row: 1,
            byte_column: 4,
        })
    );
    assert_eq!(
        widget.text_position_at(area, at(15, 5)),
        Some(TextPosition {
            row: 1,
            byte_column: 4,
        })
    );
    assert_eq!(
        widget.text_position_at(area, at(16, 5)),
        Some(TextPosition {
            row: 1,
            byte_column: 7,
        })
    );
    assert_eq!(
        widget.text_position_at(area, at(13, 6)),
        Some(TextPosition {
            row: 2,
            byte_column: 1,
        })
    );
}

#[test]
fn text_hit_testing_rejects_gutter_status_and_rows_after_end() {
    let snapshot = RenderSnapshot {
        lines: vec!["only".into()],
        line_numbers: vec![Some(1)],
        widest_line_number: 99,
        ..RenderSnapshot::default()
    };
    let area = Rect::new(10, 5, 8, 4);
    let widget = EditorWidget::new(&snapshot);

    assert_eq!(widget.text_position_at(area, at(12, 5)), None);
    assert_eq!(widget.text_position_at(area, at(13, 6)), None);
    assert_eq!(widget.text_position_at(area, at(13, 8)), None);
    assert_eq!(widget.text_position_at(area, at(9, 5)), None);
    assert_eq!(widget.text_position_at(area, at(18, 5)), None);
}

#[test]
fn text_hit_testing_rejects_wide_graphemes_cut_by_the_viewport() {
    let left_cut = RenderSnapshot {
        lines: vec!["a界b".into()],
        viewport: Viewport {
            top_row: 0,
            left_column: 2,
        },
        ..RenderSnapshot::default()
    };
    let area = Rect::new(0, 0, 4, 2);
    assert_eq!(
        EditorWidget::new(&left_cut).text_position_at(area, at(0, 0)),
        None
    );

    let right_cut = RenderSnapshot {
        lines: vec!["a界".into()],
        ..RenderSnapshot::default()
    };
    let narrow_area = Rect::new(0, 0, 2, 2);
    assert_eq!(
        EditorWidget::new(&right_cut).text_position_at(narrow_area, at(1, 0)),
        None
    );
}

#[test]
fn offsets_horizontal_viewport_selection_and_cursor_by_gutter() {
    let snapshot = RenderSnapshot {
        lines: vec!["ab界cd".into()],
        line_numbers: vec![Some(1)],
        widest_line_number: 1,
        cursor: Some(Cursor { row: 0, column: 4 }),
        selections: vec![SelectionRange {
            start: Cursor { row: 0, column: 2 },
            end: Cursor { row: 0, column: 4 },
        }],
        viewport: Viewport {
            top_row: 0,
            left_column: 2,
        },
        ..RenderSnapshot::default()
    };
    let area = Rect::new(0, 0, 6, 2);
    let mut buf = blank(area);
    let widget = EditorWidget::new(&snapshot);

    assert_eq!(widget.text_width(area), 4);
    assert_eq!(widget.cursor_position(area), Some(at(4, 0)));
    widget.render(area, &mut buf);

    assert_eq!(buf.cell((0, 0)).expect("line number").symbol(), "1");
    assert_eq!(buf.cell((2, 0)).expect("wide grapheme").symbol(), "界");
    assert_eq!(buf.cell((4, 0)).expect("first trailing cell").symbol(), "c");
    assert_eq!(buf.cell((5, 0)).expect("last trailing cell").symbol(), "d");
    for x in [2, 3] {
        assert!(
            buf.cell((x, 0))
                .expect("selected wide grapheme cell")
                .modifier
                .contains(Modifier::REVERSED)
        );
    }
    assert!(
        !buf.cell((0, 0))
            .expect("unselected gutter")
            .modifier
            .contains(Modifier::REVERSED)
    );
}

#[test]
fn hides_gutter_when_terminal_is_too_narrow() {
    let snapshot = RenderSnapshot {
        lines: vec!["abc".into()],
        line_numbers: vec![Some(1)],
        widest_line_number: 999,
        cursor: Some(Cursor { row: 0, column: 2 }),
        ..RenderSnapshot::default()
    };
    let area = Rect::new(0, 0, 3, 2);
    let mut buf = blank(area);
    let widget = EditorWidget::new(&snapshot);

    assert_eq!(widget.text_width(area), 3);
    assert_eq!(widget.cursor_position(area), Some(at(2, 0)));
    widget.render(area, &mut buf);

    assert_eq!(row(&buf, 0), "abc");
}

#[test]
fn layers_multiline_backgrounds_between_syntax_and_selection() {
    let snapshot = RenderSnapshot {
        lines: vec!["a界e\u{301}z".into(), String::new(), "xyz".into()],
        line_numbers: vec![Some(1), Some(2), Some(3)],
        widest_line_number: 3,
        selections: vec![SelectionRange {
            start: Cursor { row: 0, column: 3 },
            end: Cursor { row: 1, column: 0 },
        }],
        text_style: Style::new().fg(Color::White).bg(Color::Black),
        line_styles: vec![
            vec![StyleSpan {
                start_column: 1,
                end_column: 4,
                style: Style::new().fg(Color::Red).add_modifier(Modifier::BOLD),
            }],
            Vec::new(),
            Vec::new(),
        ],
        background_ranges: vec![BackgroundRange {
            range: SelectionRange {
                start: Cursor { row: 0, column: 1 },
                end: Cursor { row: 2, column: 2 },
            },
            style: Style::new()
                .fg(Color::Green)
                .bg(Color::Blue)
                .add_modifier(Modifier::ITALIC),
        }],
        ..RenderSnapshot::default()
    };
    let area = Rect::new(0, 0, 10, 4);
    let mut buf = blank(area);

    EditorWidget::new(&snapshot).render(area, &mut buf);

    let wide = buf.cell((3, 0)).expect("wide highlighted grapheme");
    assert_eq!(wide.symbol(), "界");
    assert_eq!(wide.fg, Color::Red);
    assert_eq!(wide.bg, Color::Blue);
    assert!(wide.modifier.contains(Modifier::BOLD));
    assert!(!wide.modifier.contains(Modifier::ITALIC));

    let combining = buf.cell((5, 0)).expect("combining grapheme");
    assert_eq!(combining.symbol(), "e\u{301}");
    assert_eq!(combining.bg, Color::Blue);
    assert!(combining.modifier.contains(Modifier::REVERSED));

    let selected_newline = buf.cell((7, 0)).expect("selected newline");
    assert_eq!(selected_newline.bg, Color::Blue);
    assert!(selected_newline.modifier.contains(Modifier::REVERSED));

    let empty_line_newline = buf.cell((2, 1)).expect("empty-line newline");
    assert_eq!(empty_line_newline.bg, Color::Blue);
    assert!(!empty_line_newline.modifier.contains(Modifier::REVERSED));
    assert_eq!(buf.cell((2, 2)).expect("range end row").bg, Color::Blue);
    assert_eq!(buf.cell((3, 2)).expect("range end row").bg, Color::Blue);
    assert_eq!(buf.cell((4, 2)).expect("past range end").bg, Color::Black);
    assert_ne!(buf.cell((1, 0)).expect("gutter padding").bg, Color::Blue);
}

#[test]
fn clips_backgrounds_with_gutter_and_horizontal_viewport() {
    let snapshot = RenderSnapshot {
        lines: vec!["a界bc".into()],
        line_numbers: vec![Some(1)],
        widest_line_number: 1,
        text_style: Style::new().bg(Color::Black),
        background_ranges: vec![BackgroundRange {
            range: SelectionRange {
                start: Cursor { row: 0, column: 1 },
                end: Cursor { row: 0, column: 4 },
            },
            style: Style::new().bg(Color::Blue),
        }],
        viewport: Viewport {
            top_row: 0,
            left_column: 2,
        },
        ..RenderSnapshot::default()
    };
    let area = Rect::new(0, 0, 5, 2);
    let mut buf = blank(area);

    EditorWidget::new(&snapshot).render(area, &mut buf);

    assert_eq!(buf.cell((2, 0)).expect("cut wide cell").symbol(), " ");
    assert_eq!(buf.cell((2, 0)).expect("cut wide cell").bg, Color::Blue);
    assert_eq!(buf.cell((3, 0)).expect("visible match cell").symbol(), "b");
    assert_eq!(
        buf.cell((3, 0)).expect("visible match cell").bg,
        Color::Blue
    );
    assert_eq!(buf.cell((4, 0)).expect("past match").symbol(), "c");
    assert_eq!(buf.cell((4, 0)).expect("past match").bg, Color::Black);
    assert_ne!(buf.cell((0, 0)).expect("gutter").bg, Color::Blue);
}

#[test]
fn status_cursor_takes_priority_and_clamps_to_the_status_row() {
    let mut snapshot = RenderSnapshot {
        lines: vec![String::new(); 5],
        cursor: Some(Cursor { row: 2, column: 2 }),
        status_cursor_column: Some(3),
        ..RenderSnapshot::default()
    };
    let area = Rect::new(10, 5, 8, 4);

    assert_eq!(
        EditorWidget::new(&snapshot).cursor_position(area),
        Some(at(13, 8))
    );

    snapshot.status_cursor_column = Some(usize::MAX);
    assert_eq!(
        EditorWidget::new(&snapshot).cursor_position(area),
        Some(at(17, 8))
    );
    assert_eq!(
        EditorWidget::new(&snapshot).cursor_position(Rect::new(2, 7, 4, 1)),
        Some(at(5, 7))
    );
    assert_eq!(
        EditorWidget::new(&snapshot).cursor_position(Rect::new(0, 0, 0, 1)),
        None
    );
    assert_eq!(
        EditorWidget::new(&snapshot).cursor_position(Rect::new(0, 0, 1, 0)),
        None
    );
}

#[test]
fn clips_horizontally_in_terminal_cells() {
    let snapshot = RenderSnapshot {
        lines: vec!["ab界cd".into()],
        viewport: Viewport {
            top_row: 0,
            left_column: 2,
        },
        ..RenderSnapshot::default()
    };
    let area = Rect::new(0, 0, 4, 2);
    let mut buf = blank(area);

    EditorWidget::new(&snapshot).render(area, &mut buf);

    assert_eq!(buf.cell((0, 0)).expect("first cell").symbol(), "界");
    assert_eq!(buf.cell((2, 0)).expect("third cell").symbol(), "c");
    assert_eq!(buf.cell((3, 0)).expect("fourth cell").symbol(), "d");
}

#[test]
fn leaves_a_blank_when_viewport_cuts_a_wide_grapheme() {
    let snapshot = RenderSnapshot {
        lines: vec!["ab界cd".into()],
        viewport: Viewport {
            top_row: 0,
            left_column: 3,
        },
        ..RenderSnapshot::default()
    };
    let area = Rect::new(0, 0, 3, 2);
    let mut buf = blank(area);

    EditorWidget::new(&snapshot).render(area, &mut buf);

    assert_eq!(row(&buf, 0), " cd");
}

#[test]
fn maps_only_visible_cursor_positions() {
    let mut snapshot = RenderSnapshot {
        first_row: 0,
        total_rows: 5,
        lines: vec![String::new(); 5],
        line_numbers: Vec::new(),
        widest_line_number: 0,
        cursor: Some(Cursor { row: 3, column: 7 }),
        secondary_cursors: Vec::new(),
        cursor_line_number: None,
        selections: Vec::new(),
        text_style: Style::default(),
        gutter_style: Style::default(),
        line_styles: Vec::new(),
        background_ranges: Vec::new(),
        cell_decorations: Vec::new(),
        inline_annotations: Vec::new(),
        viewport: Viewport {
            top_row: 2,
            left_column: 4,
        },
        status: String::new(),
        status_cursor_column: None,
        overlay: None,
    };
    let widget_area = Rect::new(10, 5, 8, 4);

    assert_eq!(
        EditorWidget::new(&snapshot).cursor_position(widget_area),
        Some(at(13, 6))
    );

    snapshot.cursor = Some(Cursor { row: 1, column: 7 });
    assert_eq!(
        EditorWidget::new(&snapshot).cursor_position(widget_area),
        None
    );
    snapshot.cursor = Some(Cursor { row: 3, column: 12 });
    assert_eq!(
        EditorWidget::new(&snapshot).cursor_position(widget_area),
        None
    );
}

#[test]
fn safely_clips_widget_to_buffer() {
    let snapshot = RenderSnapshot {
        lines: vec!["abcdef".into(), "ghijkl".into()],
        status: "status".into(),
        ..RenderSnapshot::default()
    };
    let widget_area = Rect::new(0, 0, 6, 3);
    let buffer_area = Rect::new(2, 1, 3, 2);
    let mut buf = blank(buffer_area);

    EditorWidget::new(&snapshot).render(widget_area, &mut buf);

    assert_eq!(row(&buf, 1), "ijk");
    assert_eq!(row(&buf, 2), "atu");
}

#[test]
fn clears_stale_content_and_handles_empty_areas() {
    let snapshot = RenderSnapshot {
        lines: vec!["x".into()],
        ..RenderSnapshot::default()
    };
    let area = Rect::new(0, 0, 4, 2);
    let mut buf = blank(area);
    buf.set_string(0, 0, "old!", Style::default());

    EditorWidget::new(&snapshot).render(area, &mut buf);

    assert_eq!(row(&buf, 0), "x   ");

    let empty = Rect::new(0, 0, 0, 0);
    EditorWidget::new(&snapshot).render(empty, &mut buf);

    let outside = Rect::new(10, 10, 2, 2);
    EditorWidget::new(&snapshot).render(outside, &mut buf);
}

#[test]
fn renders_multiline_selection_and_selected_newlines() {
    let snapshot = RenderSnapshot {
        lines: vec!["abc".into(), String::new(), "xyz".into()],
        selections: vec![SelectionRange {
            start: Cursor { row: 0, column: 1 },
            end: Cursor { row: 2, column: 2 },
        }],
        ..RenderSnapshot::default()
    };
    let area = Rect::new(0, 0, 5, 4);
    let mut buf = blank(area);

    EditorWidget::new(&snapshot).render(area, &mut buf);

    for (x, y) in [(1, 0), (2, 0), (3, 0), (0, 1), (0, 2), (1, 2)] {
        assert!(
            buf.cell((x, y))
                .expect("selected cell")
                .modifier
                .contains(Modifier::REVERSED),
            "expected ({x}, {y}) to be selected"
        );
    }
    for (x, y) in [(0, 0), (4, 0), (1, 1), (2, 2)] {
        assert!(
            !buf.cell((x, y))
                .expect("unselected cell")
                .modifier
                .contains(Modifier::REVERSED),
            "expected ({x}, {y}) not to be selected"
        );
    }
}

#[test]
fn clips_selection_in_terminal_cell_coordinates() {
    let snapshot = RenderSnapshot {
        lines: vec!["a界bc".into()],
        selections: vec![SelectionRange {
            start: Cursor { row: 0, column: 1 },
            end: Cursor { row: 0, column: 4 },
        }],
        viewport: Viewport {
            top_row: 0,
            left_column: 2,
        },
        ..RenderSnapshot::default()
    };
    let area = Rect::new(0, 0, 3, 2);
    let mut buf = blank(area);

    EditorWidget::new(&snapshot).render(area, &mut buf);

    assert_eq!(row(&buf, 0), " bc");
    for x in [0, 1] {
        assert!(
            buf.cell((x, 0))
                .expect("selected cell")
                .modifier
                .contains(Modifier::REVERSED)
        );
    }
    assert!(
        !buf.cell((2, 0))
            .expect("unselected cell")
            .modifier
            .contains(Modifier::REVERSED)
    );
}

#[test]
fn combines_syntax_style_with_selection_on_wide_graphemes() {
    let snapshot = RenderSnapshot {
        lines: vec!["a界b".into()],
        selections: vec![SelectionRange {
            start: Cursor { row: 0, column: 1 },
            end: Cursor { row: 0, column: 3 },
        }],
        text_style: Style::new().fg(Color::White),
        line_styles: vec![vec![StyleSpan {
            start_column: 1,
            end_column: 3,
            style: Style::new().fg(Color::Red).add_modifier(Modifier::BOLD),
        }]],
        ..RenderSnapshot::default()
    };
    let area = Rect::new(0, 0, 4, 2);
    let mut buf = blank(area);

    EditorWidget::new(&snapshot).render(area, &mut buf);

    let glyph = buf.cell((1, 0)).expect("wide grapheme start cell");
    assert_eq!(glyph.fg, Color::Red);
    assert!(glyph.modifier.contains(Modifier::BOLD));
    assert!(glyph.modifier.contains(Modifier::REVERSED));
    assert!(
        buf.cell((2, 0))
            .expect("wide grapheme continuation cell")
            .modifier
            .contains(Modifier::REVERSED)
    );
    assert_eq!(buf.cell((0, 0)).expect("base cell").fg, Color::White);
    assert!(
        !buf.cell((3, 0))
            .expect("unselected cell")
            .modifier
            .contains(Modifier::REVERSED)
    );
}

#[test]
fn renders_a_local_row_slice_at_global_document_positions() {
    let snapshot = RenderSnapshot {
        first_row: 40,
        total_rows: 100,
        lines: vec!["forty".into(), "forty-one".into()],
        line_numbers: vec![Some(41), Some(42)],
        widest_line_number: 100,
        cursor: Some(Cursor { row: 41, column: 1 }),
        secondary_cursors: Vec::new(),
        cursor_line_number: Some(42),
        selections: vec![SelectionRange {
            start: Cursor { row: 40, column: 1 },
            end: Cursor { row: 41, column: 2 },
        }],
        text_style: Style::new().fg(Color::White).bg(Color::Black),
        gutter_style: Style::new().fg(Color::Yellow).bg(Color::Black),
        line_styles: vec![Vec::new(), Vec::new()],
        background_ranges: vec![BackgroundRange {
            range: SelectionRange {
                start: Cursor { row: 41, column: 0 },
                end: Cursor { row: 41, column: 1 },
            },
            style: Style::new().bg(Color::Blue),
        }],
        cell_decorations: Vec::new(),
        inline_annotations: Vec::new(),
        viewport: Viewport {
            top_row: 40,
            left_column: 0,
        },
        status: "NORMAL".into(),
        status_cursor_column: None,
        overlay: None,
    };
    let area = Rect::new(0, 0, 24, 3);
    let mut buf = blank(area);
    let widget = EditorWidget::new(&snapshot);

    assert_eq!(widget.cursor_position(area), Some(at(5, 1)));
    widget.render(area, &mut buf);

    assert!(row(&buf, 0).starts_with(" 41 forty"));
    assert!(row(&buf, 1).starts_with(" 42 forty-one"));
    assert!(row(&buf, 2).starts_with("NORMAL  Ln 42, Col 2"));
    assert!(
        buf.cell((5, 0))
            .expect("selected first visible row")
            .modifier
            .contains(Modifier::REVERSED)
    );
    assert_eq!(
        buf.cell((4, 1)).expect("visible background range").bg,
        Color::Blue
    );
}

#[test]
fn cell_decorations_preserve_text_coordinates_and_layer_below_selection() {
    let snapshot = RenderSnapshot {
        total_rows: 1,
        lines: vec!["a b界".into()],
        selections: vec![SelectionRange {
            start: Cursor { row: 0, column: 1 },
            end: Cursor { row: 0, column: 2 },
        }],
        text_style: Style::new().fg(Color::White).bg(Color::Black),
        cell_decorations: vec![
            CellDecoration {
                row: 0,
                column: 1,
                glyph: Some("·".into()),
                style: Style::new().fg(Color::Yellow),
                style_on_text: false,
            },
            CellDecoration {
                row: 0,
                column: 0,
                glyph: Some("│".into()),
                style: Style::new().fg(Color::Red),
                style_on_text: false,
            },
            CellDecoration {
                row: 0,
                column: 3,
                glyph: Some("│".into()),
                style: Style::new().bg(Color::Blue),
                style_on_text: true,
            },
            CellDecoration {
                row: 0,
                column: 5,
                glyph: Some("│".into()),
                style: Style::new().fg(Color::Green),
                style_on_text: true,
            },
        ],
        ..RenderSnapshot::default()
    };
    let area = Rect::new(0, 0, 8, 2);
    let mut buf = blank(area);
    let widget = EditorWidget::new(&snapshot);

    widget.render(area, &mut buf);

    assert_eq!(buf.cell((1, 0)).expect("space marker").symbol(), "·");
    assert_eq!(buf.cell((1, 0)).expect("space marker").fg, Color::Yellow);
    assert!(
        buf.cell((1, 0))
            .expect("selected marker")
            .modifier
            .contains(Modifier::REVERSED)
    );
    assert_eq!(
        buf.cell((0, 0)).expect("occupied source cell").symbol(),
        "a"
    );
    assert_eq!(
        buf.cell((0, 0)).expect("occupied source cell").fg,
        Color::White
    );
    assert_eq!(buf.cell((3, 0)).expect("wide source cell").symbol(), "界");
    assert_eq!(
        buf.cell((3, 0)).expect("styled source cell").bg,
        Color::Blue
    );
    assert_eq!(buf.cell((5, 0)).expect("blank guide cell").symbol(), "│");
    assert_eq!(
        widget.text_position_at(area, at(1, 0)),
        Some(TextPosition {
            row: 0,
            byte_column: 1,
        })
    );
}

#[test]
fn inline_annotations_clip_without_entering_source_text() {
    let snapshot = RenderSnapshot {
        total_rows: 1,
        lines: vec!["abc".into()],
        text_style: Style::new().fg(Color::White).bg(Color::Black),
        inline_annotations: vec![InlineAnnotation {
            row: 0,
            column: 5,
            text: "error".into(),
            style: Style::new().fg(Color::Red).bg(Color::Blue),
        }],
        viewport: Viewport {
            top_row: 0,
            left_column: 6,
        },
        ..RenderSnapshot::default()
    };
    let area = Rect::new(0, 0, 4, 2);
    let mut buf = blank(area);
    let widget = EditorWidget::new(&snapshot);

    widget.render(area, &mut buf);

    assert_eq!(row(&buf, 0), "rror");
    assert_eq!(buf.cell((0, 0)).expect("clipped annotation").fg, Color::Red);
    assert_eq!(
        widget.text_position_at(area, at(0, 0)),
        Some(TextPosition {
            row: 0,
            byte_column: 3,
        })
    );
}

#[test]
fn reports_the_global_cursor_line_while_cursor_is_offscreen() {
    let snapshot = RenderSnapshot {
        first_row: 50,
        total_rows: 100,
        lines: vec!["fifty".into(), "fifty-one".into()],
        cursor: Some(Cursor { row: 7, column: 2 }),
        cursor_line_number: Some(8),
        viewport: Viewport {
            top_row: 50,
            left_column: 0,
        },
        status: "NORMAL".into(),
        ..RenderSnapshot::default()
    };
    let area = Rect::new(0, 0, 24, 3);

    assert_eq!(EditorWidget::new(&snapshot).cursor_position(area), None);
    assert_eq!(
        EditorWidget::new(&snapshot).status_text(),
        "NORMAL  Ln 8, Col 3"
    );
}

#[test]
fn hit_testing_maps_local_rows_back_to_global_display_rows() {
    let snapshot = RenderSnapshot {
        first_row: 20,
        total_rows: 100,
        lines: vec!["aa".into(), "a界".into()],
        viewport: Viewport {
            top_row: 20,
            left_column: 0,
        },
        ..RenderSnapshot::default()
    };
    let area = Rect::new(10, 5, 8, 3);
    let widget = EditorWidget::new(&snapshot);

    assert_eq!(
        widget.text_position_at(area, at(12, 6)),
        Some(TextPosition {
            row: 21,
            byte_column: 4,
        })
    );
}

#[test]
fn overlays_are_bounded_virtualized_and_mark_the_selected_row() {
    let snapshot = RenderSnapshot {
        lines: vec!["underlay".into(); 20],
        total_rows: 20,
        text_style: Style::new().fg(Color::White).bg(Color::Black),
        overlay: Some(OverlaySnapshot {
            title: "Commands".into(),
            rows: (0..10)
                .map(|index| OverlayRow {
                    text: format!("action {index}"),
                    enabled: index != 8,
                })
                .collect(),
            selected: Some(8),
        }),
        ..RenderSnapshot::default()
    };
    let area = Rect::new(0, 0, 24, 7);
    let mut buf = blank(area);

    EditorWidget::new(&snapshot).render(area, &mut buf);

    assert!(row(&buf, 0).contains("Commands"));
    assert!(row(&buf, 4).contains("› action 8"));
    let selected_x = row(&buf, 4).find('›').expect("selected marker") as u16;
    assert!(
        buf.cell((selected_x, 4))
            .expect("selected overlay cell")
            .modifier
            .contains(Modifier::REVERSED)
    );
    assert!(row(&buf, 5).contains('└'));
}

#[test]
fn overlay_panel_uses_bordered_rows_for_rendering_and_hit_testing() {
    let snapshot = OverlaySnapshot {
        title: " Diagnostics ".into(),
        rows: vec![
            OverlayRow {
                text: "W src/main.rs:1:4 warning".into(),
                enabled: true,
            },
            OverlayRow {
                text: "collecting".into(),
                enabled: false,
            },
        ],
        selected: Some(0),
    };
    let area = Rect::new(4, 3, 32, 5);
    let mut buf = blank(Rect::new(0, 0, 40, 10));

    OverlayPanelWidget::new(&snapshot, true).render(area, &mut buf);

    assert!(row(&buf, 3).contains("Diagnostics"));
    assert!(row(&buf, 4).contains("› W src/main.rs:1:4 warning"));
    assert!(
        buf.cell((5, 4))
            .expect("selected diagnostics row")
            .modifier
            .contains(Modifier::REVERSED)
    );
    assert_eq!(OverlayPanelWidget::row_budget(area), 3);
    assert_eq!(
        OverlayPanelWidget::row_at(area, at(10, 4)),
        Some(0)
    );
    assert_eq!(OverlayPanelWidget::row_at(area, at(10, 3)), None);
}

#[test]
fn columns_lead_to_the_closest_byte() {
    assert_eq!(closest_text_byte_column("a\u{754c}b", 0), 0);
    assert_eq!(closest_text_byte_column("a\u{754c}b", 1), 1);
    assert_eq!(closest_text_byte_column("a\u{754c}b", 3), 4);
    assert_eq!(closest_text_byte_column("a\u{754c}b", 100), 5);
    assert_eq!(closest_text_byte_column("", 3), 0);
    assert_eq!(closest_text_byte_column("\u{85}\u{754c}", 0), 2);
    assert_eq!(closest_text_byte_column("\u{85}\u{754c}", 1), 5);
    assert_eq!(closest_text_byte_column("a\u{7}\r\nb\u{1}", 0), 0);
    assert_eq!(closest_text_byte_column("a\u{7}\r\nb\u{1}", 1), 4);
    assert_eq!(closest_text_byte_column("a\u{7}\r\nb\u{1}", 2), 6);
}

#[test]
fn the_closest_byte_is_where_a_character_starts() {
    for line in ["\u{85}\u{754c}\u{9f}e\u{301}\u{0}x", "\u{1f468}\u{200d}\u{1f469}\u{85}\u{85}z", "\t\u{754c}\t"] {
        for column in 0..12 {
            assert!(line.is_char_boundary(closest_text_byte_column(line, column)), "{line:?} {column}");
        }
    }
}

#[test]
fn a_frame_keeps_to_its_area_and_forgets_the_one_before() {
    let mut snapshot = RenderSnapshot::default();
    snapshot.total_rows = 2;
    snapshot.lines = vec!["one \u{754c}".into(), "a line that is too long".into()];
    snapshot.status = "NORMAL".into();
    let whole = Rect::new(0, 0, 20, 6);
    let area = Rect::new(3, 1, 10, 4);
    let mut clean = blank(whole);
    EditorWidget::new(&snapshot).render(area, &mut clean);
    let mut used = blank(whole);
    for y in 0..6 {
        used.set_string(0, y, "####################", Style::default().fg(Color::Red));
    }
    EditorWidget::new(&snapshot).render(area, &mut used);
    for y in 0..6 {
        for x in 0..20 {
            if area.contains(at(x, y)) {
                assert_eq!(used.cell((x, y)), clean.cell((x, y)));
            } else {
                assert_eq!(used.cell((x, y)).unwrap().symbol(), "#");
                assert_eq!(clean.cell((x, y)).unwrap().symbol(), " ");
            }
        }
    }
    let before = used.clone();
    EditorWidget::new(&snapshot).render(area, &mut used);
    assert_eq!(used, before);
    EditorWidget::new(&snapshot).render(Rect::new(40, 1, 10, 4), &mut used);
    assert_eq!(used, before);
}

#[test]
fn the_gutter_leaves_a_cell_for_the_text() {
    for width in 0..12 {
        let area = Rect::new(0, 0, width, 3);
        let text = EditorWidget::text_width_for_widest_line_number(area, 12_345);
        assert_eq!(text, if width > 6 { width - 6 } else { width });
    }
}

#[test]
fn nothing_is_drawn_outside_the_buffer() {
    let snapshot = RenderSnapshot {
        lines: vec!["a".repeat(200)],
        overlay: Some(OverlaySnapshot {
            title: "x".into(),
            rows: vec![OverlayRow { text: "y".into(), enabled: true }],
            selected: None,
        }),
        ..RenderSnapshot::default()
    };
    let mut buf = blank(Rect::new(3, 3, 2, 2));
    EditorWidget::new(&snapshot).render(Rect::new(0, 0, 40, 20), &mut buf);
    EditorWidget::new(&snapshot).render(Rect::new(u16::MAX - 2, u16::MAX - 2, 40, 20), &mut buf);
    assert_eq!(buf.area.width, 2);
}

#[test]
fn a_panel_needs_only_the_rows_that_it_draws() {
    let overlay = OverlaySnapshot {
        title: "Panel".into(),
        rows: vec![OverlayRow { text: "first".into(), enabled: true }],
        selected: None,
    };
    let mut buf = blank(Rect::new(0, 0, 12, 3));
    let widget = OverlayPanelWidget::new(&overlay, false);
    assert!(widget.fits(Rect::new(0, 0, 20, 9), Rect::new(0, 0, 12, 3)));
    assert!(!widget.fits(Rect::new(0, 2, 20, 9), Rect::new(0, 0, 12, 3)));
    widget.render(Rect::new(0, 0, 20, 9), &mut buf);
    assert!(row(&buf, 1).contains("first"));
}
