//! Laws of drawing the editor, and of finding the text under a cell.

use vstd::prelude::*;

use crate::geometry::{Position, Rect};
use crate::paint::{
    cell_width, drawings_join, drawn, graphemes, no_parts, restyled, shown_width, style_parts,
    with_modifiers, Glyph, Stroke, StyleParts, BOLD, REVERSED,
};
use crate::render::{
    background_strokes, body_strokes, columns, columns_grow, cursor_strokes, each, grapheme_stroke,
    grapheme_strokes, gutter_strokes, hit, line_strokes, listed_strokes, number_label,
    selection_strokes, span_style, visible_range, BackgroundRange, Cursor, Layout, OverlaySnapshot,
    Place, RenderSnapshot, SelectionRange, StyleSpan,
};
use crate::text::decimal;
use crate::render::{closest_char, grapheme_end, grapheme_start, gutter_for, largest};
use crate::text::control;

verus! {

/// Whether a cell of the document lies in a range, in reading order.
pub open spec fn lies_in(range: SelectionRange, row: int, column: int) -> bool {
    &&& range.start.row < row || range.start.row == row && range.start.column <= column
    &&& row < range.end.row || row == range.end.row && column < range.end.column
}

/// The cell of the screen where a column of the document is shown.
pub open spec fn shown_at(place: Place, column: int) -> (int, int) {
    (place.area.x + (column - place.left), place.y as int)
}

/// Whether a column of the document can be seen: its cell lies in the area, and
/// in what may be drawn on.
pub open spec fn can_be_seen(place: Place, column: int) -> bool {
    &&& place.left <= column < place.left + place.area.width
    &&& place.left + place.area.width <= usize::MAX
    &&& place.area.x + place.area.width <= u16::MAX
    &&& place.clipped.holds(shown_at(place, column).0, shown_at(place, column).1)
}

/// Whether the visible cells of a range on a row hold a cell.
pub open spec fn covers(
    range: SelectionRange,
    row: int,
    line_width: int,
    place: Place,
    at: (int, int),
) -> bool {
    visible_range(range, row, line_width, place) matches Some(rect) && rect.holds(at.0, at.1)
}

/// A visible cell up to the line break is covered by a range just where it lies
/// in it.
proof fn lemma_covers(range: SelectionRange, row: int, line_width: int, place: Place, column: int)
    requires
        can_be_seen(place, column),
        0 <= line_width <= u16::MAX,
        0 <= column <= line_width,
    ensures
        covers(range, row, line_width, place, shown_at(place, column)) <==> lies_in(
            range,
            row,
            column,
        ),
{
}

/// A cell that was styled as selected.
pub open spec fn reversed(cell: Glyph) -> Glyph {
    Glyph { modifiers: cell.modifiers | REVERSED, ..cell }
}

proof fn lemma_reversed(cell: Glyph)
    ensures
        restyled(cell, with_modifiers(no_parts(), REVERSED)) == reversed(cell),
        reversed(reversed(cell)) == reversed(cell),
        reversed(cell).modifiers & REVERSED == REVERSED,
{
    let m = cell.modifiers;
    assert((m | (0u16 | 0x40u16)) & !(0u16 & !0x40u16) == m | 0x40u16) by (bit_vector);
    assert((m | 0x40u16) | 0x40u16 == m | 0x40u16) by (bit_vector);
    assert((m | 0x40u16) & 0x40u16 == 0x40u16) by (bit_vector);
}

proof fn lemma_drawn_add(
    cells: Map<(int, int), Glyph>,
    bounds: Rect,
    first: Seq<Stroke>,
    second: Seq<Stroke>,
)
    ensures
        drawn(cells, bounds, first + second) == drawn(drawn(cells, bounds, first), bounds, second),
{
    drawings_join(cells, bounds, first, second);
}

proof fn lemma_selections_drawn(
    cells: Map<(int, int), Glyph>,
    bounds: Rect,
    list: Seq<SelectionRange>,
    n: int,
    row: int,
    line_width: int,
    place: Place,
    at: (int, int),
)
    requires
        0 <= n <= list.len(),
        cells.contains_key(at),
    ensures
        ({
            let after = drawn(
                cells,
                bounds,
                each(n, selection_strokes(list, row, line_width, place)),
            );
            &&& after.contains_key(at)
            &&& after[at] == if exists|i: int|
                0 <= i < n && #[trigger] covers(list[i], row, line_width, place, at) {
                reversed(cells[at])
            } else {
                cells[at]
            }
        }),
    decreases n,
{
    let of = selection_strokes(list, row, line_width, place);
    if n > 0 {
        lemma_selections_drawn(cells, bounds, list, n - 1, row, line_width, place, at);
        let before = drawn(cells, bounds, each(n - 1, of));
        let own = of(n - 1);
        lemma_drawn_add(cells, bounds, each(n - 1, of), own);
        lemma_reversed(cells[at]);
        lemma_reversed(before[at]);
        let here = covers(list[n - 1], row, line_width, place, at);
        if own.len() > 0 {
            assert(own.drop_last() =~= Seq::<Stroke>::empty());
            assert(drawn(before, bounds, own.drop_last()) == before);
            assert(drawn(before, bounds, own)[at] == if here {
                reversed(before[at])
            } else {
                before[at]
            });
        } else {
            assert(!here);
        }
        if exists|i: int| 0 <= i < n - 1 && #[trigger] covers(list[i], row, line_width, place, at) {
            let i = choose|i: int|
                0 <= i < n - 1 && #[trigger] covers(list[i], row, line_width, place, at);
            assert(0 <= i < n && covers(list[i], row, line_width, place, at));
        }
    }
}

/// The row of the document that a row of the screen shows, and where.
pub open spec fn text_place(snapshot: RenderSnapshot, layout: Layout, y: u16) -> Place {
    Place {
        y,
        area: layout.text,
        clipped: layout.text.spec_intersection(layout.clipped),
        left: snapshot.viewport.left_column,
    }
}

/// A visible cell of the text, up to the cell of the line break, is styled as
/// selected exactly where it lies in one of the selections in reading order: on a
/// row between the first and the last of a selection that is every one. Nothing
/// else of the cell changes, and no other cell does: the row is drawn as it would
/// be without selections, and selected cells are reversed on top.
pub proof fn selected_cells_are_reversed(
    snapshot: RenderSnapshot,
    plain: RenderSnapshot,
    area: Rect,
    layout: Layout,
    y: u16,
    bounds: Rect,
    cells: Map<(int, int), Glyph>,
    row: int,
    column: int,
)
    requires
        plain == (RenderSnapshot { selections: plain.selections, ..snapshot }),
        plain.selections@.len() == 0,
        area.y <= y,
        row == snapshot.viewport.top_row + (y - area.y),
        row <= usize::MAX,
        snapshot.row_text(row) is Some,
        0 <= column <= shown_width(snapshot.row_text(row)->0),
        can_be_seen(text_place(snapshot, layout, y), column),
        drawn(cells, bounds, body_strokes(plain, area, layout, y)).contains_key(
            shown_at(text_place(snapshot, layout, y), column),
        ),
    ensures
        ({
            let at = shown_at(text_place(snapshot, layout, y), column);
            let without = drawn(cells, bounds, body_strokes(plain, area, layout, y));
            let with = drawn(cells, bounds, body_strokes(snapshot, area, layout, y));
            let selected = exists|i: int|
                0 <= i < snapshot.selections@.len() && #[trigger] lies_in(
                    snapshot.selections@[i],
                    row,
                    column,
                );
            &&& with.contains_key(at)
            &&& with[at].symbol == without[at].symbol && with[at].fg == without[at].fg
                && with[at].bg == without[at].bg
            &&& selected ==> with[at].modifiers == without[at].modifiers | REVERSED
                && with[at].modifiers & REVERSED == REVERSED
            &&& !selected ==> with[at] == without[at]
        }),
{
    let place = text_place(snapshot, layout, y);
    let at = shown_at(place, column);
    let index = snapshot.local_row(row)->0;
    let line = snapshot.lines@[index]@;
    let width = shown_width(line) as int;
    let list = snapshot.selections@;
    let under = body_strokes(plain, area, layout, y);
    let own = each(list.len() as int, selection_strokes(list, row, width, place));
    let none = each(
        plain.selections@.len() as int,
        selection_strokes(plain.selections@, row, width, place),
    );
    assert(none =~= Seq::<Stroke>::empty());
    assert(body_strokes(snapshot, area, layout, y) =~= under + own);
    let without = drawn(cells, bounds, under);
    lemma_drawn_add(cells, bounds, under, own);
    lemma_selections_drawn(without, bounds, list, list.len() as int, row, width, place, at);
    lemma_reversed(without[at]);
    assert forall|i: int| 0 <= i < list.len() implies covers(list[i], row, width, place, at)
        == #[trigger] lies_in(list[i], row, column) by {
        lemma_covers(list[i], row, width, place, column);
    }
    if exists|i: int| 0 <= i < list.len() && #[trigger] covers(list[i], row, width, place, at) {
        let i = choose|i: int|
            0 <= i < list.len() && #[trigger] covers(list[i], row, width, place, at);
        assert(lies_in(list[i], row, column));
    }
    if exists|i: int| 0 <= i < list.len() && #[trigger] lies_in(list[i], row, column) {
        let i = choose|i: int| 0 <= i < list.len() && #[trigger] lies_in(list[i], row, column);
        assert(covers(list[i], row, width, place, at));
    }
}

/// The ground that some highlights ask for at a cell: that of the last one that
/// holds it, where it asks for any.
pub open spec fn ground_of(
    list: Seq<BackgroundRange>,
    n: int,
    row: int,
    column: int,
    under: int,
) -> int
    decreases n,
{
    if n <= 0 {
        under
    } else {
        match style_parts(list[n - 1].style).bg {
            Some(color) if lies_in(list[n - 1].range, row, column) => color,
            _ => ground_of(list, n - 1, row, column, under),
        }
    }
}

/// Highlights give their ground to the cells that lie in them in reading order,
/// and touch nothing else; of two that hold a cell, the later one counts.
pub proof fn highlights_ground_their_cells(
    cells: Map<(int, int), Glyph>,
    bounds: Rect,
    list: Seq<BackgroundRange>,
    n: int,
    row: int,
    line_width: int,
    place: Place,
    column: int,
)
    requires
        0 <= n <= list.len(),
        can_be_seen(place, column),
        0 <= line_width <= u16::MAX,
        0 <= column <= line_width,
        cells.contains_key(shown_at(place, column)),
    ensures
        ({
            let at = shown_at(place, column);
            let after = drawn(
                cells,
                bounds,
                each(n, background_strokes(list, row, line_width, place)),
            );
            &&& after.contains_key(at)
            &&& after[at] == (Glyph {
                bg: ground_of(list, n, row, column, cells[at].bg),
                ..cells[at]
            })
        }),
    decreases n,
{
    let of = background_strokes(list, row, line_width, place);
    let at = shown_at(place, column);
    if n > 0 {
        highlights_ground_their_cells(
            cells,
            bounds,
            list,
            n - 1,
            row,
            line_width,
            place,
            column,
        );
        let before = drawn(cells, bounds, each(n - 1, of));
        let own = of(n - 1);
        lemma_drawn_add(cells, bounds, each(n - 1, of), own);
        lemma_covers(list[n - 1].range, row, line_width, place, column);
        let m = before[at].modifiers;
        assert((m | 0u16) & !0u16 == m) by (bit_vector);
        if own.len() > 0 {
            assert(own.drop_last() =~= Seq::<Stroke>::empty());
            assert(drawn(before, bounds, own.drop_last()) == before);
        }
    }
}

/// Every grapheme of a line that has its place in the area, and in what may be
/// drawn on, is printed whole where its column is shown, and nothing else is. One
/// that an edge cuts is left out.
pub proof fn visible_graphemes_are_printed(
    line: Seq<char>,
    style: StyleParts,
    spans: Seq<StyleSpan>,
    place: Place,
    k: int,
)
    requires
        0 <= k < graphemes(line).len(),
        place.area.x + place.area.width <= u16::MAX,
        place.left + place.area.width <= usize::MAX,
        place.clipped.x >= place.area.x,
        place.clipped.x + place.clipped.width <= place.area.x + place.area.width,
        place.clipped.y <= place.y < place.clipped.y + place.clipped.height,
        place.clipped.y + place.clipped.height <= u16::MAX,
        place.clipped.width > 0,
    ensures
        ({
            let list = graphemes(line);
            let start = columns(list, k);
            let x = place.area.x + (start - place.left);
            let stroke = grapheme_stroke(list, k, style, spans, place);
            let whole = {
                &&& cell_width(list[k]) > 0
                &&& place.left <= start
                &&& place.clipped.x <= x
                &&& x + cell_width(list[k]) <= place.clipped.x + place.clipped.width
            };
            &&& stroke is Some <==> whole
            &&& whole ==> line_strokes(line, style, spans, place).contains(stroke->0)
            &&& whole ==> (stroke->0 matches Stroke::Text { x: at, y, text, width, style: shown }
                && at == x && y == place.y && text == list[k] && width >= cell_width(list[k])
                && shown == span_style(style, spans, start, columns(list, k + 1)))
        }),
{
    let list = graphemes(line);
    columns_grow(list, 0, k);
    assert(place.shows_row());
    if grapheme_stroke(list, k, style, spans, place) is Some {
        lemma_strokes_hold(list, list.len() as int, style, spans, place, k);
    }
}

proof fn lemma_strokes_hold(
    list: Seq<Seq<char>>,
    n: int,
    style: StyleParts,
    spans: Seq<StyleSpan>,
    place: Place,
    k: int,
)
    requires
        0 <= k < n,
        grapheme_stroke(list, k, style, spans, place) is Some,
    ensures
        grapheme_strokes(list, n, style, spans, place).contains(
            grapheme_stroke(list, k, style, spans, place)->0,
        ),
    decreases n,
{
    let all = grapheme_strokes(list, n, style, spans, place);
    let front = grapheme_strokes(list, n - 1, style, spans, place);
    let own = grapheme_stroke(list, k, style, spans, place)->0;
    if k == n - 1 {
        assert(all[front.len() as int] == own);
    } else {
        lemma_strokes_hold(list, n - 1, style, spans, place, k);
        let i = choose|i: int| 0 <= i < front.len() && front[i] == own;
        assert(all[i] == own);
    }
}

/// A cell of a line is styled by the last span that holds its grapheme, on top of
/// those before; a span that holds it in part has no say.
pub proof fn spans_style_what_they_hold(
    style: StyleParts,
    spans: Seq<StyleSpan>,
    span: StyleSpan,
    start: int,
    end: int,
)
    ensures
        ({
            let under = span_style(style, spans, start, end);
            let over = span_style(style, spans.push(span), start, end);
            let own = style_parts(span.style);
            &&& span.start_column <= start && end <= span.end_column ==> {
                &&& over.fg == if own.fg is Some {
                    own.fg
                } else {
                    under.fg
                }
                &&& over.bg == if own.bg is Some {
                    own.bg
                } else {
                    under.bg
                }
            }
            &&& !(span.start_column <= start && end <= span.end_column) ==> over == under
        }),
        span_style(style, Seq::empty(), start, end) == style,
{
    assert(spans.push(span).drop_last() =~= spans);
}

/// A line number stands at the right of the gutter, before a blank: the gutter is
/// as wide as the largest number and the blank.
pub proof fn line_numbers_are_aligned(number: u32, digits: int)
    requires
        decimal(number as nat).len() <= digits,
    ensures
        ({
            let label = number_label(number, digits);
            let own = decimal(number as nat);
            &&& label.len() == digits + 1
            &&& label.last() == ' '
            &&& label.subrange(digits - own.len(), digits) == own
            &&& forall|i: int| 0 <= i < digits - own.len() ==> #[trigger] label[i] == ' '
        }),
{
    let label = number_label(number, digits);
    let own = decimal(number as nat);
    assert(label.subrange(digits - own.len(), digits) =~= own);
}

/// The number of a captured row is printed in the gutter of its screen row.
pub proof fn rows_have_their_numbers(
    snapshot: RenderSnapshot,
    layout: Layout,
    index: int,
    y: u16,
    number: u32,
)
    requires
        0 <= index < snapshot.line_numbers@.len(),
        layout.gutter.width > 0,
    ensures
        snapshot.line_numbers@[index] == Some(number) ==> gutter_strokes(
            snapshot,
            layout,
            index,
            y,
        ) == line_strokes(
            number_label(number, snapshot.digits()),
            style_parts(snapshot.gutter_style),
            Seq::empty(),
            Place {
                y,
                area: layout.gutter,
                clipped: layout.gutter.spec_intersection(layout.clipped),
                left: 0,
            },
        ),
        snapshot.line_numbers@[index] is None ==> gutter_strokes(snapshot, layout, index, y).len()
            == 0,
{
}

/// The cursor is shown behind the gutter, as many columns and rows from the
/// corner of the text as it stands from the corner of the viewport, where that
/// cell lies in the body. The cursor of a prompt is shown on the last row, no
/// further right than the area.
pub proof fn the_cursor_is_shown_in_its_place(snapshot: RenderSnapshot, area: Rect, cursor: Cursor)
    requires
        area.width > 0,
        area.height > 0,
        area.x + area.width <= u16::MAX,
        area.y + area.height <= u16::MAX,
    ensures
        ({
            let gutter = snapshot.gutter(area);
            let row = cursor.row - snapshot.viewport.top_row;
            let column = cursor.column - snapshot.viewport.left_column;
            let visible = {
                &&& snapshot.row_text(cursor.row as int) is Some
                &&& 0 <= row < area.height - 1
                &&& 0 <= column < area.width - gutter
            };
            snapshot.status_cursor_column is None && snapshot.cursor == Some(cursor) ==> {
                &&& snapshot.cursor_cell(area) is Some <==> visible
                &&& snapshot.cursor_cell(area) matches Some(cell) ==> cell.x == area.x + gutter
                    + column && cell.y == area.y + row
            }
        }),
        snapshot.status_cursor_column matches Some(column) ==> (snapshot.cursor_cell(
            area,
        ) matches Some(cell) && cell.y == area.y + area.height - 1 && cell.x == area.x + (
        if column < area.width {
            column as int
        } else {
            area.width - 1
        })),
        snapshot.status_cursor_column is None && snapshot.cursor is None ==> snapshot.cursor_cell(
            area,
        ) is None,
{
    crate::render::gutter_leaves_a_cell(snapshot.digits(), area.width as int);
}

/// A click on the cell where the cursor is shown finds the row and the column of
/// the cursor, unless an edge cuts the grapheme there.
pub proof fn clicks_find_the_cursor(snapshot: RenderSnapshot, area: Rect, cursor: Cursor)
    requires
        area.width > 0,
        area.height > 0,
        area.x + area.width <= u16::MAX,
        area.y + area.height <= u16::MAX,
        snapshot.status_cursor_column is None,
        snapshot.cursor == Some(cursor),
        snapshot.cursor_cell(area) is Some,
        snapshot.hit_at(area, snapshot.cursor_cell(area)->0) is Some,
    ensures
        ({
            let (position, column) = snapshot.hit_at(area, snapshot.cursor_cell(area)->0)->0;
            position.row == cursor.row && column == cursor.column
        }),
{
    crate::render::gutter_leaves_a_cell(snapshot.digits(), area.width as int);
}

/// What stands under a cell of the body: as many rows and columns behind the
/// corner of the viewport as the cell lies from the corner of the text. There is
/// nothing under the gutter, the status row, or a row without text.
pub proof fn cells_stand_for_their_text(snapshot: RenderSnapshot, area: Rect, at: Position)
    requires
        area.width > 0,
        area.x + area.width <= u16::MAX,
        area.y + area.height <= u16::MAX,
    ensures
        ({
            let gutter = snapshot.gutter(area);
            let row = snapshot.viewport.top_row + (at.y - area.y);
            let column = snapshot.viewport.left_column + (at.x - area.x - gutter);
            &&& snapshot.hit_at(area, at) matches Some((position, found)) ==> {
                &&& area.y <= at.y < area.y + area.height - 1
                &&& area.x + gutter <= at.x < area.x + area.width
                &&& position.row == row && found == column
                &&& snapshot.row_text(row) is Some
            }
            &&& snapshot.hit_at(area, at) is None && area.y <= at.y < area.y + area.height - 1
                && area.x + gutter <= at.x < area.x + area.width && row <= usize::MAX && column
                <= usize::MAX && snapshot.row_text(row) is Some ==> {
                let list = graphemes(snapshot.row_text(row)->0);
                let k = hit(list, column, 0);
                k < list.len() && (columns(list, k) < snapshot.viewport.left_column || columns(
                    list,
                    k + 1,
                ) > snapshot.viewport.left_column + (area.width - gutter) || columns(list, k + 1)
                    > usize::MAX - 1)
            }
        }),
{
    crate::render::gutter_leaves_a_cell(snapshot.digits(), area.width as int);
}

/// The status row tells the place of the cursor, counted from one: its line by
/// its number in the file where that is known. It tells of more cursors where
/// there are some, and what else there is to say comes first.
pub proof fn the_status_tells_the_place(snapshot: RenderSnapshot, cursor: Cursor, number: u32)
    requires
        snapshot.cursor == Some(cursor),
        cursor.row < usize::MAX,
        cursor.column < usize::MAX,
        snapshot.secondary_cursors@.len() < usize::MAX,
    ensures
        ({
            let line = if snapshot.cursor_line_number is Some {
                snapshot.cursor_line_number->0 as int
            } else if snapshot.row_number(cursor.row as int) is Some {
                snapshot.row_number(cursor.row as int)->0 as int
            } else {
                cursor.row + 1
            };
            let place = "Ln "@ + decimal(line as nat) + ", Col "@ + decimal(
                (cursor.column + 1) as nat,
            );
            let own = if snapshot.secondary_cursors@.len() == 0 {
                place
            } else {
                place + "  "@ + decimal(snapshot.secondary_cursors@.len() + 1) + " cursors"@
            };
            &&& snapshot.status@.len() == 0 ==> snapshot.status_line() == own
            &&& snapshot.status@.len() > 0 ==> snapshot.status_line() == snapshot.status@ + "  "@
                + own
        }),
{
}

/// A further cursor is drawn where its place is shown: its cell is reversed and
/// bold, and only where the row is there and the cell can be seen.
pub proof fn further_cursors_are_drawn(
    snapshot: RenderSnapshot,
    area: Rect,
    clipped: Rect,
    i: int,
)
    requires
        0 <= i < snapshot.secondary_cursors@.len(),
        area.x + area.width <= u16::MAX,
        area.y + area.height <= u16::MAX,
    ensures
        ({
            let cursor = snapshot.secondary_cursors@[i];
            let x = area.x + (cursor.column - snapshot.viewport.left_column);
            let y = area.y + (cursor.row - snapshot.viewport.top_row);
            let own = cursor_strokes(snapshot, area, clipped)(i);
            let visible = area.holds(x, y) && clipped.holds(x, y) && snapshot.row_text(
                cursor.row as int,
            ) is Some;
            &&& own.len() == if visible {
                1int
            } else {
                0
            }
            &&& visible ==> (own[0] matches Stroke::Fill { area: cell, style } && (forall|a: int, b: int|
                #[trigger] cell.holds(a, b) <==> a == x && b == y) && style.added == REVERSED
                | BOLD)
        }),
{
    let cursor = snapshot.secondary_cursors@[i];
    let x = area.x + (cursor.column - snapshot.viewport.left_column);
    let y = area.y + (cursor.row - snapshot.viewport.top_row);
    assert((0u16 | 0x40u16) | 0x01u16 == 0x40u16 | 0x01u16) by (bit_vector);
    if area.holds(x, y) {
        let cell = Rect::spec_new(x as u16, y as u16, 1, 1);
        let seen = cell.spec_intersection(clipped);
        assert forall|a: int, b: int| #[trigger] seen.holds(a, b) <==> a == x && b == y
            && clipped.holds(x, y) by {
            crate::geometry::intersection_holds_the_shared_cells(cell, clipped, a, b);
        }
        if clipped.holds(x, y) {
            assert(seen.holds(x, y));
        } else if !seen.spec_is_empty() {
            assert(seen.holds(seen.x as int, seen.y as int));
        }
    }
}

/// The rows of an overlay are drawn below each other from the first that is
/// shown on. The selected one is marked and reversed, one that is disabled is
/// dim, and each reads its own text.
pub proof fn overlay_rows_read_their_text(
    overlay: OverlaySnapshot,
    base: StyleParts,
    inner: Rect,
    clipped: Rect,
    first: int,
    cut: bool,
    i: int,
)
    requires
        0 <= i,
        0 <= first,
        first + i < overlay.rows@.len(),
        inner.y + i <= u16::MAX,
    ensures
        ({
            let own = listed_strokes(overlay, base, inner, clipped, first, cut)(i);
            let row = overlay.rows@[first + i];
            let selected = overlay.selected matches Some(n) && n == first + i;
            let style = if selected {
                with_modifiers(base, REVERSED)
            } else if row.enabled {
                base
            } else {
                with_modifiers(base, crate::paint::DIM)
            };
            &&& own.len() > 0
            &&& own[0] matches Stroke::Fill { style: shown, .. } && shown == style
            &&& own.skip(1) == line_strokes(
                if selected {
                    "\u{203a} "@ + row.text@
                } else {
                    "  "@ + row.text@
                },
                style,
                Seq::empty(),
                Place { y: (inner.y + i) as u16, area: inner, clipped, left: 0 },
            )
        }),
{
    let own = listed_strokes(overlay, base, inner, clipped, first, cut)(i);
    let row = overlay.rows@[first + i];
    let selected = overlay.shown_selection() == Some(first + i);
    let style = crate::render::row_style(base, row, selected);
    let line = line_strokes(
        crate::render::row_label(row, selected),
        style,
        Seq::empty(),
        Place { y: (inner.y + i) as u16, area: inner, clipped, left: 0 },
    );
    assert(own.skip(1) =~= line);
}

proof fn lemma_longer_numbers(a: nat, b: nat)
    requires
        a <= b,
    ensures
        decimal(a).len() <= decimal(b).len(),
    decreases b,
{
    if b >= 10 {
        if a >= 10 {
            lemma_longer_numbers(a / 10, b / 10);
        } else {
            lemma_longer_numbers(0, b / 10);
        }
    }
}

proof fn lemma_largest(numbers: Seq<Option<u32>>)
    ensures
        forall|i: int|
            0 <= i < numbers.len() && (#[trigger] numbers[i]) is Some ==> largest(numbers) is Some
                && numbers[i]->0 <= largest(numbers)->0,
        largest(numbers) matches Some(most) ==> exists|i: int|
            0 <= i < numbers.len() && (#[trigger] numbers[i]) is Some && numbers[i]->0 == most,
    decreases numbers.len(),
{
    if numbers.len() > 0 {
        let front = numbers.drop_last();
        lemma_largest(front);
        assert forall|i: int| 0 <= i < front.len() implies #[trigger] numbers[i] == front[i] by {}
        assert forall|i: int| 0 <= i < numbers.len() && (#[trigger] numbers[i]) is Some implies largest(
            numbers,
        ) is Some && numbers[i]->0 <= largest(numbers)->0 by {
            if i < front.len() {
                assert(front[i] is Some);
            }
        }
        if let Some(most) = largest(numbers) {
            if largest(front) == Some(most) {
                let i = choose|i: int|
                    0 <= i < front.len() && (#[trigger] front[i]) is Some && front[i]->0 == most;
                assert(numbers[i] is Some);
            } else {
                assert(numbers[numbers.len() - 1] is Some);
            }
        }
    }
}

/// There is room for the longest line number, those further on in the document
/// too, and for no longer one.
pub proof fn the_longest_number_has_room(snapshot: RenderSnapshot, i: int)
    requires
        0 <= i < snapshot.line_numbers@.len(),
    ensures
        snapshot.line_numbers@[i] matches Some(number) ==> decimal(number as nat).len()
            <= snapshot.digits(),
        snapshot.widest_line_number > 0 ==> decimal(snapshot.widest_line_number as nat).len()
            <= snapshot.digits(),
        snapshot.digits() > 0 ==> snapshot.digits() == decimal(
            snapshot.widest_line_number as nat,
        ).len() || exists|k: int|
            0 <= k < snapshot.line_numbers@.len() && (#[trigger] snapshot.line_numbers@[k]) is Some
                && snapshot.digits() == decimal(snapshot.line_numbers@[k]->0 as nat).len(),
{
    let numbers = snapshot.line_numbers@;
    lemma_largest(numbers);
    if let Some(number) = numbers[i] {
        lemma_longer_numbers(number as nat, largest(numbers)->0 as nat);
        if snapshot.widest_line_number >= largest(numbers)->0 {
            lemma_longer_numbers(number as nat, snapshot.widest_line_number as nat);
        }
    }
    if snapshot.widest_line_number > 0 && largest(numbers) is Some {
        if snapshot.widest_line_number <= largest(numbers)->0 {
            lemma_longer_numbers(
                snapshot.widest_line_number as nat,
                largest(numbers)->0 as nat,
            );
        }
    }
}

/// The gutter has a column for each digit and one more, where that leaves room
/// for the text; without numbers, or without room, there is none.
pub proof fn gutters_have_a_column_for_each_digit(digits: int, width: int)
    requires
        0 <= digits,
        0 < width <= u16::MAX,
    ensures
        digits == 0 ==> gutter_for(digits, width) == 0,
        0 < digits && digits + 1 < width ==> gutter_for(digits, width) == digits + 1,
        digits + 1 >= width ==> gutter_for(digits, width) == 0,
{
}

/// How many scalar values some graphemes have.
pub open spec fn scalars_in(list: Seq<Seq<char>>, k: int) -> int
    decreases k,
{
    if k <= 0 {
        0
    } else {
        scalars_in(list, k - 1) + list[k - 1].len()
    }
}

proof fn lemma_grapheme_start(line: Seq<char>, list: Seq<Seq<char>>, k: int)
    requires
        forall|i: int| 0 <= i < line.len() ==> !control(#[trigger] line[i]),
        0 <= k <= list.len(),
        scalars_in(list, k) <= line.len(),
        forall|j: int| 0 <= j <= k ==> #[trigger] scalars_in(list, j) <= scalars_in(list, k),
    ensures
        grapheme_start(line, list, k) == scalars_in(list, k),
        grapheme_end(line, list, k) == scalars_in(list, k),
    decreases k,
{
    lemma_scalars_grow(list, 0, k);
    if k > 0 {
        assert forall|j: int| 0 <= j <= k - 1 implies #[trigger] scalars_in(list, j) <= scalars_in(
            list,
            k - 1,
        ) by {
            lemma_scalars_grow(list, j, k - 1);
        }
        assert(scalars_in(list, k - 1) <= scalars_in(list, k));
        lemma_grapheme_start(line, list, k - 1);
    }
}

proof fn lemma_scalars_grow(list: Seq<Seq<char>>, i: int, j: int)
    requires
        0 <= i <= j,
    ensures
        0 <= scalars_in(list, i) <= scalars_in(list, j),
    decreases j,
{
    if i < j {
        lemma_scalars_grow(list, i, j - 1);
    } else if i > 0 {
        lemma_scalars_grow(list, i - 1, j - 1);
    }
}

/// A click on the left half of a character goes in front of it, one on the
/// right half behind it; one behind the line goes to its end.
pub proof fn clicks_go_to_the_nearer_side(line: Seq<char>, column: int, k: int)
    requires
        forall|i: int| 0 <= i < line.len() ==> !control(#[trigger] line[i]),
        0 <= column,
        0 <= k < graphemes(line).len(),
        hit(graphemes(line), column, 0) == k,
        scalars_in(graphemes(line), k + 1) <= line.len(),
    ensures
        ({
            let list = graphemes(line);
            let into = column - columns(list, k);
            let width = cell_width(list[k]);
            &&& 2 * into < width ==> closest_char(line, column) == scalars_in(list, k)
            &&& 2 * into >= width ==> closest_char(line, column) == scalars_in(list, k + 1)
        }),
{
    let list = graphemes(line);
    assert forall|j: int| 0 <= j <= k + 1 implies #[trigger] scalars_in(list, j) <= scalars_in(
        list,
        k + 1,
    ) by {
        lemma_scalars_grow(list, j, k + 1);
    }
    assert forall|j: int| 0 <= j <= k implies #[trigger] scalars_in(list, j) <= scalars_in(
        list,
        k,
    ) by {
        lemma_scalars_grow(list, j, k);
    }
    lemma_grapheme_start(line, list, k);
    lemma_grapheme_start(line, list, k + 1);
}

/// A click behind the last character goes to the end of the line.
pub proof fn clicks_behind_the_line_go_to_its_end(line: Seq<char>, column: int)
    requires
        hit(graphemes(line), column, 0) >= graphemes(line).len(),
    ensures
        closest_char(line, column) == line.len(),
{
}

} // verus!
