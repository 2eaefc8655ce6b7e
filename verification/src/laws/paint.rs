//! Laws of drawing on cells.

use vstd::prelude::*;

use crate::geometry::Rect;
use crate::paint::{
    blank, color_number, decorated, drawn, known_color, patched, plain_lines, restyled, shown_width, stroked,
    with_color, with_modifiers, Glyph, HostColor, Stroke, StyleParts,
};
use crate::text::lines;

verus! {

/// What is drawn later is drawn over what is there.
pub proof fn later_strokes_are_drawn_over_earlier_ones(
    cells: Map<(int, int), Glyph>,
    area: Rect,
    list: Seq<Stroke>,
    stroke: Stroke,
)
    ensures
        drawn(cells, area, Seq::empty()) == cells,
        drawn(cells, area, list.push(stroke)) == stroked(drawn(cells, area, list), area, stroke),
{
    assert(list.push(stroke).drop_last() =~= list);
}

/// Clearing empties the cells of an area, and styling changes how they look and
/// not what they show; the cells around stay.
pub proof fn areas_are_cleared_and_styled_cell_by_cell(
    cells: Map<(int, int), Glyph>,
    bounds: Rect,
    area: Rect,
    style: StyleParts,
    at: (int, int),
)
    requires
        cells.contains_key(at),
    ensures
        ({
            let cleared = stroked(cells, bounds, Stroke::Clear { area });
            let filled = stroked(cells, bounds, Stroke::Fill { area, style });
            &&& cleared.contains_key(at) && filled.contains_key(at)
            &&& area.holds(at.0, at.1) ==> cleared[at] == blank() && filled[at].symbol
                == cells[at].symbol && filled[at] == restyled(cells[at], style)
            &&& !area.holds(at.0, at.1) ==> cleared[at] == cells[at] && filled[at] == cells[at]
        }),
{
}

/// A style changes the colors that it asks for and leaves the others.
pub proof fn styles_change_what_they_ask_for(cell: Glyph, style: StyleParts)
    ensures
        restyled(cell, style).symbol == cell.symbol,
        style.fg matches Some(color) ==> restyled(cell, style).fg == color,
        style.fg is None ==> restyled(cell, style).fg == cell.fg,
        style.bg matches Some(color) ==> restyled(cell, style).bg == color,
        style.bg is None ==> restyled(cell, style).bg == cell.bg,
        style.added == 0 && style.removed == 0 ==> restyled(cell, style).modifiers == cell.modifiers,
{
    let bits = cell.modifiers;
    assert((bits | 0u16) & !0u16 == bits) by (bit_vector);
}

/// Of two styles one after the other the later one decides, where it asks for
/// anything.
pub proof fn the_later_style_decides(first: StyleParts, second: StyleParts)
    ensures
        ({
            let both = patched(first, second);
            &&& second.fg is Some ==> both.fg == second.fg
            &&& second.fg is None ==> both.fg == first.fg
            &&& second.bg is Some ==> both.bg == second.bg
            &&& second.bg is None ==> both.bg == first.bg
            &&& second.underline is Some ==> both.underline == second.underline
            &&& second.underline is None ==> both.underline == first.underline
            &&& both.added & second.added == second.added
            &&& both.removed & second.removed == second.removed
        }),
{
    let (a, b, c, d) = (first.added, second.removed, second.added, first.removed);
    assert(((a & !b) | c) & c == c) by (bit_vector);
    assert(((d & !c) | b) & b == b) by (bit_vector);
}

/// A color is for the text or for what is behind it, as it is asked for, and
/// different colors have different numbers.
pub proof fn colors_are_for_text_or_background(
    style: StyleParts,
    a: HostColor,
    b: HostColor,
    foreground: bool,
)
    requires
        known_color(a),
        known_color(b),
    ensures
        foreground ==> with_color(style, a, foreground).fg == Some(color_number(a)) && with_color(
            style,
            a,
            foreground,
        ).bg == style.bg,
        !foreground ==> with_color(style, a, foreground).bg == Some(color_number(a)) && with_color(
            style,
            a,
            foreground,
        ).fg == style.fg,
        color_number(a) == color_number(b) ==> a == b,
        color_number(a) > 0,
{
}

/// A mark on an empty cell shows its glyph, where that takes one cell, in its
/// style; on a text it only styles it, and only where it is meant to. All
/// other cells stay.
pub proof fn marks_do_not_cover_text(
    cells: Map<(int, int), Glyph>,
    x: u16,
    y: u16,
    glyph: Option<Seq<char>>,
    style: StyleParts,
    on_text: bool,
    at: (int, int),
)
    requires
        cells.contains_key((x as int, y as int)),
        cells.contains_key(at),
        x < u16::MAX,
        y < u16::MAX,
    ensures
        ({
            let after = decorated(cells, x as int, y as int, glyph, style, on_text);
            let place = (x as int, y as int);
            let own = cells[place];
            &&& at != place ==> after[at] == cells[at]
            &&& own.symbol == seq![' '] ==> {
                &&& glyph matches Some(mark) ==> (shown_width(mark) == 1 ==> after[place] == restyled(
                    Glyph { symbol: mark, ..own },
                    style,
                ))
                &&& glyph is None || shown_width(glyph->0) != 1 ==> after[place] == restyled(own, style)
            }
            &&& own.symbol != seq![' '] && on_text ==> after[place] == restyled(own, style)
            &&& own.symbol != seq![' '] && !on_text ==> after[place] == own
        }),
{
}

/// A text is listed line by line.
pub proof fn texts_are_listed_line_by_line(s: Seq<char>, i: int)
    requires
        0 <= i < lines(s).len(),
    ensures
        plain_lines(s).len() == lines(s).len(),
        plain_lines(s)[i] == seq![lines(s)[i]],
{
}

/// Modifiers are added to those that are there.
pub proof fn modifiers_are_added(style: StyleParts, bits: u16)
    ensures
        with_modifiers(style, bits).added & bits == bits,
        with_modifiers(style, bits).added & style.added == style.added,
        with_modifiers(style, bits).removed & bits == 0,
        with_modifiers(style, bits).fg == style.fg && with_modifiers(style, bits).bg == style.bg,
{
    let (a, r) = (style.added, style.removed);
    assert((a | bits) & bits == bits) by (bit_vector);
    assert((a | bits) & a == a) by (bit_vector);
    assert((r & !bits) & bits == 0) by (bit_vector);
}

} // verus!
