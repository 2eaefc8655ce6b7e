//! Laws of what is drawn over and around the text.

use vstd::prelude::*;

use crate::geometry::{window_start_of, Rect};
use crate::paint::{no_parts, shown_width, style_parts, with_modifiers, Stroke, StyleParts, BOLD, DIM, REVERSED};
use crate::render::{
    annotation_place, annotation_strokes, content_width, decoration_strokes, each, layout_of,
    line_strokes, listed_strokes, overlay_area, overlay_strokes, panel_strokes, status_strokes,
    CellDecoration, InlineAnnotation, OverlayRow, OverlaySnapshot, Place, RenderSnapshot,
};

verus! {

/// A mark is drawn in its own cell, with its glyph and its style, where that
/// cell can be seen, and nowhere else.
pub proof fn marks_stand_in_their_cells(list: Seq<CellDecoration>, row: int, place: Place, i: int)
    requires
        0 <= i < list.len(),
        place.left + place.area.width <= usize::MAX,
        place.area.x + place.area.width <= u16::MAX,
    ensures
        ({
            let own = decoration_strokes(list, row, place)(i);
            let mark = list[i];
            let x = place.area.x + (mark.column - place.left);
            if mark.row == row && place.left <= mark.column < place.left + place.area.width
                && place.clipped.holds(x, place.y as int) {
                &&& own.len() == 1
                &&& own[0] matches Stroke::Mark { x: at, y, glyph, style, on_text }
                &&& at == x && y == place.y
                &&& mark.glyph is Some <==> glyph is Some
                &&& mark.glyph matches Some(text) ==> glyph == Some(text@)
                &&& style == style_parts(mark.style)
                &&& on_text == mark.style_on_text
            } else {
                own.len() == 0
            }
        }),
{
}

/// A note starts in its own column; where that is left of what is shown, the
/// part of it that is right of that is shown from the edge on.
pub proof fn notes_start_in_their_columns(note: InlineAnnotation, row: int, place: Place)
    requires
        place.left + place.area.width <= usize::MAX,
        place.area.x + place.area.width <= u16::MAX,
        note.column + shown_width(note.text@) <= usize::MAX,
    ensures
        annotation_place(note, row, place) is Some <==> note.row == row && note.column
            < place.left + place.area.width && note.column + shown_width(note.text@) > place.left,
        annotation_place(note, row, place) matches Some(at) ==> {
            &&& at.y == place.y && at.clipped == place.clipped
            &&& note.column >= place.left ==> at.left == 0 && at.area.x == place.area.x + (
            note.column - place.left)
            &&& note.column < place.left ==> at.left == place.left - note.column && at.area.x
                == place.area.x
            &&& at.area.x + at.area.width == place.area.x + place.area.width
        },
{
}

/// A note is drawn as a line of its own text, in its own style.
pub proof fn notes_are_drawn_as_lines(list: Seq<InlineAnnotation>, row: int, place: Place, i: int)
    requires
        0 <= i < list.len(),
        place.clipped.width > 0,
        place.clipped.height > 0,
    ensures
        match annotation_place(list[i], row, place) {
            Some(at) => annotation_strokes(list, row, place)(i) == line_strokes(
                list[i].text@,
                style_parts(list[i].style),
                Seq::empty(),
                at,
            ),
            None => annotation_strokes(list, row, place)(i).len() == 0,
        },
{
}

/// What has to be shown is as wide as the widest of the title and the rows,
/// each with its mark.
pub proof fn the_widest_row_decides(rows: Seq<OverlayRow>, title: Seq<char>)
    ensures
        content_width(rows, title) >= shown_width(title),
        forall|i: int|
            0 <= i < rows.len() ==> content_width(rows, title) >= shown_width(
                (#[trigger] rows[i]).text@,
            ) + 2,
        content_width(rows, title) == shown_width(title) || exists|i: int|
            0 <= i < rows.len() && content_width(rows, title) == shown_width(
                (#[trigger] rows[i]).text@,
            ) + 2,
    decreases rows.len(),
{
    if rows.len() > 0 {
        let front = rows.drop_last();
        the_widest_row_decides(front, title);
        assert forall|i: int| 0 <= i < rows.len() implies content_width(rows, title) >= shown_width(
            (#[trigger] rows[i]).text@,
        ) + 2 by {
            if i < front.len() {
                assert(front[i] == rows[i]);
            }
        }
        if content_width(rows, title) == content_width(front, title) {
            if content_width(front, title) != shown_width(title) {
                let i = choose|i: int|
                    0 <= i < front.len() && content_width(front, title) == shown_width(
                        (#[trigger] front[i]).text@,
                    ) + 2;
                assert(rows[i] == front[i]);
            }
        } else {
            assert(content_width(rows, title) == shown_width(rows[rows.len() - 1].text@) + 2);
        }
    }
}

/// What stands over the text is in the middle of it, at most two rows down, as
/// wide as what it shows needs and as high as it has rows, as far as there is
/// room.
pub proof fn overlays_stand_in_the_middle(overlay: OverlaySnapshot, body: Rect)
    requires
        body.width >= 4,
        body.height >= 3,
        body.x + body.width <= u16::MAX,
        body.y + body.height <= u16::MAX,
    ensures
        ({
            let area = overlay_area(overlay, body, body);
            let wanted = content_width(overlay.rows@, overlay.title@) + 4;
            let count = overlay.rows@.len();
            let left = area.x - body.x;
            let right = body.width - left - area.width;
            let above = area.y - body.y;
            &&& 0 <= right - left <= 1
            &&& 0 <= above <= 2
            &&& area.width <= body.width && area.height <= body.height
            &&& wanted <= body.width ==> area.width == wanted
            &&& wanted > body.width ==> area.width == body.width
            &&& count > 0 && count + 2 <= body.height ==> area.height == count + 2
            &&& count + 2 > body.height ==> area.height == body.height
            &&& count > 0 && count + 4 <= body.height ==> above == 2
        }),
{
    the_widest_row_decides(overlay.rows@, overlay.title@);
}

/// Over the text first its cells are cleared, then a frame with the title is
/// drawn, and then the rows, from the first that lets the selected one be seen.
pub proof fn overlays_are_framed_and_listed(
    overlay: OverlaySnapshot,
    body: Rect,
    clipped: Rect,
    base: StyleParts,
)
    requires
        body.width >= 4,
        body.height >= 3,
        overlay_area(overlay, body, clipped).width >= 4,
        overlay_area(overlay, body, clipped).height >= 3,
    ensures
        ({
            let all = overlay_strokes(overlay, body, clipped, base);
            let area = overlay_area(overlay, body, clipped);
            let inner = area.spec_inside_border();
            let count = overlay.rows@.len() as int;
            let first = window_start_of(count, overlay.shown_selection(), inner.height as int);
            let shown = if count - first < inner.height {
                count - first
            } else {
                inner.height as int
            };
            &&& all[0] == (Stroke::Clear { area })
            &&& all[1] == (Stroke::Frame {
                area,
                title: overlay.title@,
                style: base,
                border: no_parts(),
            })
            &&& all.skip(2) == each(
                shown,
                listed_strokes(overlay, base, inner, clipped, first, true),
            )
        }),
{
    let all = overlay_strokes(overlay, body, clipped, base);
    let area = overlay_area(overlay, body, clipped);
    let inner = area.spec_inside_border();
    let count = overlay.rows@.len() as int;
    let first = window_start_of(count, overlay.shown_selection(), inner.height as int);
    let shown = if count - first < inner.height {
        count - first
    } else {
        inner.height as int
    };
    assert(all.skip(2) =~= each(shown, listed_strokes(overlay, base, inner, clipped, first, true)));
}

/// A panel is cleared, framed with its title, bold where it has the focus and
/// dim where it has not, and shows its rows from the first on.
pub proof fn panels_show_their_rows_from_the_first_on(
    panel: OverlaySnapshot,
    focused: bool,
    area: Rect,
)
    requires
        area.width >= 3,
        area.height >= 3,
    ensures
        ({
            let all = panel_strokes(panel, focused, area);
            let inner = area.spec_inside_border();
            let count = panel.rows@.len() as int;
            let shown = if count < inner.height {
                count
            } else {
                inner.height as int
            };
            &&& all[0] == (Stroke::Clear { area })
            &&& all[1] == (Stroke::Frame {
                area,
                title: panel.title@,
                style: no_parts(),
                border: with_modifiers(no_parts(), if focused { BOLD } else { DIM }),
            })
            &&& all.skip(2) == each(
                shown,
                listed_strokes(panel, no_parts(), inner, inner, 0, false),
            )
        }),
{
    let all = panel_strokes(panel, focused, area);
    let inner = area.spec_inside_border();
    let count = panel.rows@.len() as int;
    let shown = if count < inner.height {
        count
    } else {
        inner.height as int
    };
    assert(all.skip(2) =~= each(shown, listed_strokes(panel, no_parts(), inner, inner, 0, false)));
}

/// What is drawn one after another is the drawing of each, in order.
pub proof fn drawings_follow_each_other(n: int, strokes_of: spec_fn(int) -> Seq<Stroke>)
    requires
        0 <= n,
    ensures
        each(n + 1, strokes_of) == each(n, strokes_of) + strokes_of(n),
        each(0, strokes_of).len() == 0,
{
}

/// The status row is the last of the area; it is reversed all over and reads
/// the status line.
pub proof fn the_status_row_is_the_last(snapshot: RenderSnapshot, area: Rect)
    requires
        area.width > 0,
        area.height > 0,
        area.x + area.width <= u16::MAX,
        area.y + area.height <= u16::MAX,
    ensures
        ({
            let all = status_strokes(snapshot, area, area);
            let y = area.y + area.height - 1;
            let style = with_modifiers(style_parts(snapshot.text_style), REVERSED);
            &&& all[0] matches Stroke::Fill { area: row, style: own }
            &&& own == style
            &&& row.y == y && row.height == 1 && row.x == area.x && row.width == area.width
            &&& all.skip(1) == line_strokes(
                snapshot.status_line(),
                style,
                Seq::empty(),
                Place { y: y as u16, area, clipped: area, left: 0 },
            )
        }),
{
    let all = status_strokes(snapshot, area, area);
    let y = (area.y + area.height - 1) as u16;
    let style = with_modifiers(style_parts(snapshot.text_style), REVERSED);
    assert(all.skip(1) =~= line_strokes(
        snapshot.status_line(),
        style,
        Seq::empty(),
        Place { y, area, clipped: area, left: 0 },
    ));
}

/// The text takes all rows but the last; the gutter stands left of it, and the
/// two share the width between them.
pub proof fn the_gutter_stands_left_of_the_text(snapshot: RenderSnapshot, area: Rect, buffer: Rect)
    requires
        area.width > 0,
        area.height > 0,
        area.x + area.width <= u16::MAX,
        area.y + area.height <= u16::MAX,
        0 <= snapshot.gutter(area) <= area.width,
    ensures
        ({
            let layout = layout_of(snapshot, area, buffer);
            &&& layout.body.x == area.x && layout.body.y == area.y && layout.body.width == area.width
            &&& layout.body.height == area.height - 1
            &&& layout.gutter.x == area.x && layout.gutter.y == area.y
            &&& layout.gutter.width == snapshot.gutter(area)
            &&& layout.gutter.height == area.height - 1
            &&& layout.text.x == area.x + layout.gutter.width
            &&& layout.text.width + layout.gutter.width == area.width
            &&& layout.text.y == area.y && layout.text.height == area.height - 1
        }),
{
}

} // verus!
