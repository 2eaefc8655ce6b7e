//! Painting on a terminal buffer: styles, the cells of a buffer, and the
//! steps of a drawing.

use ratatui::buffer::{Buffer, CellWidth};
use ratatui::style::{Color, Modifier, Style};
use ratatui::text::{Line, Span, Text};
use ratatui::widgets::{Block, Borders, Clear, List, ListItem, Paragraph, Widget, Wrap};
use vstd::prelude::*;

use crate::geometry::Rect;
use crate::text::{control, lines, lines_of, same_text, texts};

verus! {

/// The bit of bold text.
pub const BOLD: u16 = 0x01;

/// The bit of dim text.
pub const DIM: u16 = 0x02;

/// The bit of italic text.
pub const ITALIC: u16 = 0x04;

/// The bit of underlined text.
pub const UNDERLINED: u16 = 0x08;

/// The bit of text in reversed colors.
pub const REVERSED: u16 = 0x40;

/// The bit of crossed out text.
pub const CROSSED_OUT: u16 = 0x100;

/// A style of the terminal.
#[verifier::external_type_specification]
#[verifier::external_body]
pub struct ExStyle(Style);

/// A buffer of terminal cells.
#[verifier::external_type_specification]
#[verifier::external_body]
pub struct ExBuffer(Buffer);

/// What a style asks for: colors, each by a number, and the bits of the
/// modifiers it sets and takes away.
pub struct StyleParts {
    pub fg: Option<int>,
    pub bg: Option<int>,
    pub underline: Option<int>,
    pub added: u16,
    pub removed: u16,
}

/// What a cell shows.
pub struct Glyph {
    pub symbol: Seq<char>,
    pub fg: int,
    pub bg: int,
    pub underline: int,
    pub modifiers: u16,
}

/// The contents of a style.
pub uninterp spec fn style_parts(style: Style) -> StyleParts;

/// The area of a buffer.
pub uninterp spec fn buffer_area(buffer: Buffer) -> Rect;

/// The cells of a buffer, by column and row.
pub uninterp spec fn buffer_cells(buffer: Buffer) -> Map<(int, int), Glyph>;

/// The graphemes of a text that a terminal can show, in their order.
pub uninterp spec fn graphemes(s: Seq<char>) -> Seq<Seq<char>>;

/// The number of terminal cells that a text takes.
pub uninterp spec fn cell_width(s: Seq<char>) -> u16;

/// The cells after a text was printed at a cell, within a number of cells.
pub uninterp spec fn printed(
    cells: Map<(int, int), Glyph>,
    area: Rect,
    x: u16,
    y: u16,
    text: Seq<char>,
    width: usize,
    style: StyleParts,
) -> Map<(int, int), Glyph>;

/// The cells after a border with a title was drawn along the edges of a
/// rectangle.
pub uninterp spec fn framed(
    cells: Map<(int, int), Glyph>,
    area: Rect,
    frame: Rect,
    title: Seq<char>,
    style: StyleParts,
    border: StyleParts,
) -> Map<(int, int), Glyph>;

/// The cells after rows of text, each in its style, were listed in a
/// rectangle.
pub uninterp spec fn listed(
    cells: Map<(int, int), Glyph>,
    area: Rect,
    list: Rect,
    rows: Seq<(Seq<Seq<Seq<char>>>, StyleParts)>,
) -> Map<(int, int), Glyph>;

/// The cells after lines of text, each in its style, were laid out in a
/// rectangle and wrapped at its side.
pub uninterp spec fn laid_out(
    cells: Map<(int, int), Glyph>,
    area: Rect,
    paragraph: Rect,
    lines: Seq<(Seq<char>, StyleParts)>,
) -> Map<(int, int), Glyph>;

/// A color of the terminal.
#[derive(Clone, Copy, Debug, PartialEq, Eq, Structural)]
pub enum HostColor {
    /// One of the sixteen colors of the terminal's own palette.
    Ansi(u8),
    /// One of the 256 colors of the extended palette.
    Indexed(u8),
    Rgb(u8, u8, u8),
}

/// The number of a color. Zero stands for the terminal's own color.
pub open spec fn color_number(color: HostColor) -> int {
    match color {
        HostColor::Ansi(number) => 1 + number,
        HostColor::Indexed(number) => 0x100 + number,
        HostColor::Rgb(r, g, b) => 0x1000000 + 0x10000 * r + 0x100 * g + b,
    }
}

/// A style with a color for the text or the background.
pub open spec fn with_color(style: StyleParts, color: HostColor, foreground: bool) -> StyleParts {
    if foreground {
        StyleParts { fg: Some(color_number(color)), ..style }
    } else {
        StyleParts { bg: Some(color_number(color)), ..style }
    }
}

/// A color that a terminal has.
pub open spec fn known_color(color: HostColor) -> bool {
    color matches HostColor::Ansi(number) ==> number < 16
}

/// The style that asks for nothing.
pub open spec fn no_parts() -> StyleParts {
    StyleParts { fg: None, bg: None, underline: None, added: 0, removed: 0 }
}

/// The later of two wishes for a color.
pub open spec fn later(first: Option<int>, second: Option<int>) -> Option<int> {
    match second {
        Some(color) => Some(color),
        None => first,
    }
}

/// One style after another.
pub open spec fn patched(style: StyleParts, other: StyleParts) -> StyleParts {
    StyleParts {
        fg: later(style.fg, other.fg),
        bg: later(style.bg, other.bg),
        underline: later(style.underline, other.underline),
        added: (style.added & !other.removed) | other.added,
        removed: (style.removed & !other.added) | other.removed,
    }
}

/// A style that also sets modifiers.
pub open spec fn with_modifiers(style: StyleParts, bits: u16) -> StyleParts {
    StyleParts { added: style.added | bits, removed: style.removed & !bits, ..style }
}

/// A style for the background alone.
pub open spec fn only_background(color: int) -> StyleParts {
    StyleParts { bg: Some(color), ..no_parts() }
}

/// An empty cell in the terminal's own colors, whose number is zero.
pub open spec fn blank() -> Glyph {
    Glyph { symbol: seq![' '], fg: 0, bg: 0, underline: 0, modifiers: 0 }
}

/// A cell in a style.
pub open spec fn restyled(cell: Glyph, style: StyleParts) -> Glyph {
    Glyph {
        symbol: cell.symbol,
        fg: match style.fg {
            Some(color) => color,
            None => cell.fg,
        },
        bg: match style.bg {
            Some(color) => color,
            None => cell.bg,
        },
        underline: match style.underline {
            Some(color) => color,
            None => cell.underline,
        },
        modifiers: (cell.modifiers | style.added) & !style.removed,
    }
}

/// The cells after those of an area were emptied.
pub open spec fn cleared(cells: Map<(int, int), Glyph>, area: Rect) -> Map<(int, int), Glyph> {
    cells.map_entries(
        |at: (int, int), cell: Glyph|
            if area.holds(at.0, at.1) {
                blank()
            } else {
                cell
            },
    )
}

/// The cells after those of an area got a style.
pub open spec fn filled(
    cells: Map<(int, int), Glyph>,
    area: Rect,
    style: StyleParts,
) -> Map<(int, int), Glyph> {
    cells.map_entries(
        |at: (int, int), cell: Glyph|
            if area.holds(at.0, at.1) {
                restyled(cell, style)
            } else {
                cell
            },
    )
}

/// The cells after one got another symbol.
pub open spec fn marked(
    cells: Map<(int, int), Glyph>,
    x: int,
    y: int,
    symbol: Seq<char>,
) -> Map<(int, int), Glyph> {
    cells.insert((x, y), Glyph { symbol, ..cells[(x, y)] })
}

/// A text whose width can be asked for: anything but one ASCII control
/// character alone.
pub open spec fn measurable(s: Seq<char>) -> bool {
    !(s.len() == 1 && s[0] as u32 <= 0x7F && control(s[0]))
}

/// `Span::styled_graphemes`: the extended grapheme clusters of the text,
/// without those that hold a control character. Where Unicode parts the text
/// stays unsaid.
#[verifier::external_body]
fn split_graphemes(s: &str) -> (list: Vec<String>)
    ensures
        crate::text::texts(list@) == graphemes(s@),
        forall|i: int, k: int|
            0 <= i < list@.len() && 0 <= k < list@[i]@.len() ==> !control(#[trigger] list@[i]@[k]),
{
    Span::raw(s).styled_graphemes(Style::default()).map(|g| g.symbol.to_owned()).collect()
}

/// The graphemes of a text that a terminal can show.
pub fn graphemes_of(s: &str) -> (list: Vec<String>)
    ensures
        crate::text::texts(list@) == graphemes(s@),
        forall|i: int| 0 <= i < list@.len() ==> measurable(#[trigger] list@[i]@),
{
    let list = split_graphemes(s);
    assert forall|i: int| 0 <= i < list@.len() implies measurable(#[trigger] list@[i]@) by {
        if list@[i]@.len() == 1 {
            assert(!control(list@[i]@[0]));
        }
    }
    list
}

/// `CellWidth::cell_width` of a text. A single ASCII control character is
/// left out: asking for its width is an error. The width of a given text stays
/// unsaid.
#[verifier::external_body]
pub(crate) fn width_of(s: &str) -> (width: u16)
    requires
        measurable(s@),
    ensures
        width == cell_width(s@),
{
    s.cell_width()
}

/// The cells that a text takes. One control character alone counts as one
/// cell.
pub open spec fn shown_width(s: Seq<char>) -> u16 {
    if measurable(s) {
        cell_width(s)
    } else {
        1
    }
}

/// The cells that a text takes.
pub fn measure(s: &str) -> (width: u16)
    ensures
        width == shown_width(s@),
{
    let chars = crate::text::chars_of(s);
    if chars.len() == 1 && chars[0] as u32 <= 0x7F && crate::text::is_control(chars[0]) {
        1
    } else {
        width_of(s)
    }
}

/// `Style::default`: the style that asks for nothing.
#[verifier::external_body]
pub(crate) fn plain_style() -> (style: Style)
    ensures
        style_parts(style) == no_parts(),
{
    Style::default()
}

/// `Style::patch`: the second style on top of the first.
#[verifier::external_body]
pub(crate) fn patch_style(style: Style, other: Style) -> (result: Style)
    ensures
        style_parts(result) == patched(style_parts(style), style_parts(other)),
{
    style.patch(other)
}

/// `Style::add_modifier` with the modifiers of these bits.
#[verifier::external_body]
pub(crate) fn add_modifiers(style: Style, bits: u16) -> (result: Style)
    requires
        bits < 0x200,
    ensures
        style_parts(result) == with_modifiers(style_parts(style), bits),
{
    style.add_modifier(Modifier::from_bits_truncate(bits))
}

/// `Style::fg`, with a color of the terminal: its sixteen own colors by their
/// numbers, or one by its place in the palette or by its parts.
#[verifier::external_body]
fn text_colored(style: Style, color: HostColor) -> (result: Style)
    requires
        known_color(color),
    ensures
        style_parts(result) == with_color(style_parts(style), color, true),
{
    let ansi = [Color::Black, Color::Red, Color::Green, Color::Yellow, Color::Blue, Color::Magenta,
        Color::Cyan, Color::Gray, Color::DarkGray, Color::LightRed, Color::LightGreen,
        Color::LightYellow, Color::LightBlue, Color::LightMagenta, Color::LightCyan, Color::White];
    style.fg(match color {
        HostColor::Ansi(number) => ansi[number as usize],
        HostColor::Indexed(number) => Color::Indexed(number),
        HostColor::Rgb(r, g, b) => Color::Rgb(r, g, b),
    })
}

/// `Style::bg`, with a color of the terminal: its sixteen own colors by their
/// numbers, or one by its place in the palette or by its parts.
#[verifier::external_body]
fn ground_colored(style: Style, color: HostColor) -> (result: Style)
    requires
        known_color(color),
    ensures
        style_parts(result) == with_color(style_parts(style), color, false),
{
    let ansi = [Color::Black, Color::Red, Color::Green, Color::Yellow, Color::Blue, Color::Magenta,
        Color::Cyan, Color::Gray, Color::DarkGray, Color::LightRed, Color::LightGreen,
        Color::LightYellow, Color::LightBlue, Color::LightMagenta, Color::LightCyan, Color::White];
    style.bg(match color {
        HostColor::Ansi(number) => ansi[number as usize],
        HostColor::Indexed(number) => Color::Indexed(number),
        HostColor::Rgb(r, g, b) => Color::Rgb(r, g, b),
    })
}

/// A style with a color for the text or the background.
pub(crate) fn colored(style: Style, color: HostColor, foreground: bool) -> (result: Style)
    requires
        known_color(color),
    ensures
        style_parts(result) == with_color(style_parts(style), color, foreground),
{
    if foreground {
        text_colored(style, color)
    } else {
        ground_colored(style, color)
    }
}

/// `Style::bg` on an empty style, with the background of `style` where it has
/// one.
#[verifier::external_body]
pub(crate) fn background_style(style: Style) -> (result: Option<Style>)
    ensures
        match style_parts(style).bg {
            Some(color) => result is Some && style_parts(result->0) == only_background(color),
            None => result is None,
        },
{
    style.bg.map(|color| Style::new().bg(color))
}

/// The `area` of a `Buffer`.
#[verifier::external_body]
pub(crate) fn area_of(buffer: &Buffer) -> (area: Rect)
    ensures
        area == buffer_area(*buffer),
{
    let area = buffer.area;
    Rect { x: area.x, y: area.y, width: area.width, height: area.height }
}

/// `Clear::render`: the cells of the area that the buffer has become empty.
#[verifier::external_body]
fn clear(buffer: &mut Buffer, area: Rect)
    ensures
        buffer_area(*final(buffer)) == buffer_area(*old(buffer)),
        buffer_cells(*final(buffer)) == cleared(buffer_cells(*old(buffer)), area),
{
    Clear.render(ratatui::layout::Rect { x: area.x, y: area.y, width: area.width, height: area.height }, buffer);
}

/// `Buffer::set_style`: the cells of the area that the buffer has get the
/// style.
#[verifier::external_body]
fn fill(buffer: &mut Buffer, area: Rect, style: Style)
    ensures
        buffer_area(*final(buffer)) == buffer_area(*old(buffer)),
        buffer_cells(*final(buffer)) == filled(
            buffer_cells(*old(buffer)),
            area,
            style_parts(style),
        ),
{
    let area = ratatui::layout::Rect { x: area.x, y: area.y, width: area.width, height: area.height };
    buffer.set_style(area, style);
}

/// `Buffer::set_stringn`: prints a text from a cell on, in the style, within
/// `width` cells and the buffer. The row must be one of the buffer, and the
/// column not left of it. Only cells of that row change, from the column on,
/// as far as the text may reach.
#[verifier::external_body]
fn print(buffer: &mut Buffer, x: u16, y: u16, text: &str, width: usize, style: Style)
    requires
        buffer_area(*old(buffer)).x <= x,
        buffer_area(*old(buffer)).y <= y < buffer_area(*old(buffer)).spec_bottom(),
    ensures
        buffer_area(*final(buffer)) == buffer_area(*old(buffer)),
        buffer_cells(*final(buffer)) == printed(
            buffer_cells(*old(buffer)),
            buffer_area(*old(buffer)),
            x,
            y,
            text@,
            width,
            style_parts(style),
        ),
        buffer_cells(*final(buffer)).dom() == buffer_cells(*old(buffer)).dom(),
        forall|at: (int, int)|
            buffer_cells(*old(buffer)).contains_key(at) && !(at.1 == y && x <= at.0 < x + width
                && at.0 < buffer_area(*old(buffer)).spec_right()) ==> #[trigger] buffer_cells(*final(buffer))[at] == buffer_cells(*old(buffer))[at],
{
    buffer.set_stringn(x, y, text, width, style);
}

/// `Block::render`, of a block with all borders and a title. Only cells of its
/// area change.
#[verifier::external_body]
fn frame(buffer: &mut Buffer, area: Rect, title: &str, style: Style, border: Style)
    ensures
        buffer_area(*final(buffer)) == buffer_area(*old(buffer)),
        buffer_cells(*final(buffer)) == framed(
            buffer_cells(*old(buffer)),
            buffer_area(*old(buffer)),
            area,
            title@,
            style_parts(style),
            style_parts(border),
        ),
        buffer_cells(*final(buffer)).dom() == buffer_cells(*old(buffer)).dom(),
        forall|at: (int, int)|
            buffer_cells(*old(buffer)).contains_key(at) && !area.holds(at.0, at.1)
                ==> #[trigger] buffer_cells(*final(buffer))[at] == buffer_cells(*old(buffer))[at],
{
    let area = ratatui::layout::Rect { x: area.x, y: area.y, width: area.width, height: area.height };
    let block = Block::default().borders(Borders::ALL).title(title);
    block.style(style).border_style(border).render(area, buffer);
}

/// `List::render`, of one item for each row, in the row's style: its lines are
/// made of raw spans, one for each of their parts. The rectangle must end
/// within the coordinates of a screen.
#[verifier::external_body]
fn list_rows(buffer: &mut Buffer, area: Rect, rows: &Vec<StyledRow>)
    requires
        area.x + area.width <= u16::MAX,
        area.y + area.height <= u16::MAX,
    ensures
        buffer_area(*final(buffer)) == buffer_area(*old(buffer)),
        buffer_cells(*final(buffer)) == listed(
            buffer_cells(*old(buffer)),
            buffer_area(*old(buffer)),
            area,
            row_views(rows@),
        ),
        buffer_cells(*final(buffer)).dom() == buffer_cells(*old(buffer)).dom(),
{
    let area = ratatui::layout::Rect { x: area.x, y: area.y, width: area.width, height: area.height };
    let items = rows.iter().map(|row| {
        let lines = row.lines.iter().map(|parts| Line::from_iter(parts.iter().map(String::as_str)));
        ListItem::new(lines.collect::<Vec<_>>()).style(row.style)
    });
    List::new(items).render(area, buffer);
}

/// `Paragraph::render`, of lines that are wrapped with their blanks kept. A
/// wrapped line can be wider than the rectangle, and it is not cut: each of
/// its graphemes must still start on the buffer.
#[verifier::external_body]
fn lay_out(buffer: &mut Buffer, area: Rect, lines: &Vec<StyledLine>)
    requires
        paragraph_fits(buffer_area(*old(buffer)), area, styled_views(lines@)),
    ensures
        buffer_area(*final(buffer)) == buffer_area(*old(buffer)),
        buffer_cells(*final(buffer)) == laid_out(
            buffer_cells(*old(buffer)),
            buffer_area(*old(buffer)),
            area,
            styled_views(lines@),
        ),
        buffer_cells(*final(buffer)).dom() == buffer_cells(*old(buffer)).dom(),
{
    let area = ratatui::layout::Rect { x: area.x, y: area.y, width: area.width, height: area.height };
    let lines = lines.iter().map(|line| Line::styled(line.text.as_str(), line.style));
    let text = Text::from(lines.collect::<Vec<_>>());
    Paragraph::new(text).wrap(Wrap { trim: false }).render(area, buffer);
}

/// `Buffer::cell`, for its symbol: there is one for each cell of the area.
#[verifier::external_body]
fn symbol_at(buffer: &Buffer, x: u16, y: u16) -> (symbol: Option<String>)
    ensures
        symbol is Some == buffer_cells(*buffer).contains_key((x as int, y as int)),
        symbol is Some ==> symbol->0@ == buffer_cells(*buffer)[(x as int, y as int)].symbol,
{
    buffer.cell((x, y)).map(|cell| cell.symbol().to_owned())
}

/// `Cell::set_symbol` on a cell of the buffer.
#[verifier::external_body]
fn set_symbol(buffer: &mut Buffer, x: u16, y: u16, symbol: &str)
    requires
        buffer_cells(*old(buffer)).contains_key((x as int, y as int)),
    ensures
        buffer_area(*final(buffer)) == buffer_area(*old(buffer)),
        buffer_cells(*final(buffer)) == marked(
            buffer_cells(*old(buffer)),
            x as int,
            y as int,
            symbol@,
        ),
{
    if let Some(cell) = buffer.cell_mut((x, y)) {
        cell.set_symbol(symbol);
    }
}

/// A row of text in a style. Its lines are in parts that are laid out one
/// behind the other.
pub struct StyledRow {
    pub lines: Vec<Vec<String>>,
    pub style: Style,
}

/// The texts of some lines.
pub open spec fn line_views(list: Seq<Vec<String>>) -> Seq<Seq<Seq<char>>> {
    Seq::new(list.len(), |i: int| texts(list[i]@))
}

/// The plain values of some rows.
pub open spec fn row_views(rows: Seq<StyledRow>) -> Seq<(Seq<Seq<Seq<char>>>, StyleParts)> {
    Seq::new(rows.len(), |i: int| (line_views(rows[i].lines@), style_parts(rows[i].style)))
}

/// A text as lines of one part each.
pub open spec fn plain_lines(s: Seq<char>) -> Seq<Seq<Seq<char>>> {
    Seq::new(lines(s).len(), |i: int| seq![lines(s)[i]])
}

/// A row that shows a text.
pub(crate) fn text_row(text: &str, style: Style) -> (row: StyledRow)
    ensures
        line_views(row.lines@) == plain_lines(text@),
        row.style == style,
{
    let list = lines_of(text);
    let mut result: Vec<Vec<String>> = Vec::new();
    let mut i: usize = 0;
    while i < list.len()
        invariant
            i <= list@.len(),
            texts(list@) == lines(text@),
            result@.len() == i,
            forall|k: int| 0 <= k < i ==> texts((#[trigger] result@[k])@) == seq![lines(text@)[k]],
        decreases list@.len() - i,
    {
        assert(lines(text@)[i as int] == list@[i as int]@);
        let mut parts: Vec<String> = Vec::new();
        parts.push(list[i].clone());
        assert(texts(parts@) =~= seq![list@[i as int]@]);
        result.push(parts);
        i += 1;
    }
    assert(line_views(result@) =~= plain_lines(text@));
    StyledRow { lines: result, style }
}

/// A row of one line.
pub(crate) fn line_row(parts: Vec<String>, style: Style) -> (row: StyledRow)
    ensures
        line_views(row.lines@) == seq![texts(parts@)],
        row.style == style,
{
    let mut result: Vec<Vec<String>> = Vec::new();
    result.push(parts);
    assert(line_views(result@) =~= seq![texts(parts@)]);
    StyledRow { lines: result, style }
}

/// A line of text in a style.
pub struct StyledLine {
    pub text: String,
    pub style: Style,
}

/// The plain values of some lines.
pub open spec fn styled_views(list: Seq<StyledLine>) -> Seq<(Seq<char>, StyleParts)> {
    Seq::new(list.len(), |i: int| (list[i].text@, style_parts(list[i].style)))
}

/// One step of a drawing.
pub enum Paint {
    /// Empty the cells.
    Clear { area: Rect },
    /// Style the cells.
    Fill { area: Rect, style: Style },
    /// Print a text from a cell on, within a number of cells.
    Text { x: u16, y: u16, text: String, width: usize, style: Style },
    /// Draw a border with a title.
    Frame { area: Rect, title: String, style: Style, border: Style },
    /// Mark a cell: an empty one gets the glyph, if it takes one cell, and
    /// the style; another one the style, where `on_text` says so.
    Mark { x: u16, y: u16, glyph: Option<String>, style: Style, on_text: bool },
    /// List rows of text.
    List { area: Rect, rows: Vec<StyledRow> },
    /// Lay out lines of text and wrap them.
    Paragraph { area: Rect, lines: Vec<StyledLine> },
}

/// The plain values of a [`Paint`].
pub enum Stroke {
    Clear { area: Rect },
    Fill { area: Rect, style: StyleParts },
    Text { x: u16, y: u16, text: Seq<char>, width: usize, style: StyleParts },
    Frame { area: Rect, title: Seq<char>, style: StyleParts, border: StyleParts },
    Mark { x: u16, y: u16, glyph: Option<Seq<char>>, style: StyleParts, on_text: bool },
    List { area: Rect, rows: Seq<(Seq<Seq<Seq<char>>>, StyleParts)> },
    Paragraph { area: Rect, lines: Seq<(Seq<char>, StyleParts)> },
}

impl View for Paint {
    type V = Stroke;

    open spec fn view(&self) -> Stroke {
        match *self {
            Paint::Clear { area } => Stroke::Clear { area },
            Paint::Fill { area, style } => Stroke::Fill { area, style: style_parts(style) },
            Paint::Text { x, y, text, width, style } => Stroke::Text {
                x,
                y,
                text: text@,
                width,
                style: style_parts(style),
            },
            Paint::Frame { area, title, style, border } => Stroke::Frame {
                area,
                title: title@,
                style: style_parts(style),
                border: style_parts(border),
            },
            Paint::Mark { x, y, glyph, style, on_text } => Stroke::Mark {
                x,
                y,
                glyph: match glyph {
                    Some(glyph) => Some(glyph@),
                    None => None,
                },
                style: style_parts(style),
                on_text,
            },
            Paint::List { area, rows } => Stroke::List { area, rows: row_views(rows@) },
            Paint::Paragraph { area, lines } => Stroke::Paragraph {
                area,
                lines: styled_views(lines@),
            },
        }
    }
}

/// The strokes of a drawing.
pub open spec fn strokes(list: Seq<Paint>) -> Seq<Stroke> {
    Seq::new(list.len(), |i: int| list[i]@)
}

/// The cells after a cell was marked.
pub open spec fn decorated(
    cells: Map<(int, int), Glyph>,
    x: int,
    y: int,
    glyph: Option<Seq<char>>,
    style: StyleParts,
    on_text: bool,
) -> Map<(int, int), Glyph> {
    let cell = Rect { x: x as u16, y: y as u16, width: 1, height: 1 };
    if !cells.contains_key((x, y)) {
        cells
    } else if cells[(x, y)].symbol == seq![' '] {
        let shown = if glyph is Some && shown_width(glyph->0) == 1 {
            marked(cells, x, y, glyph->0)
        } else {
            cells
        };
        filled(shown, cell, style)
    } else if on_text {
        filled(cells, cell, style)
    } else {
        cells
    }
}

/// The cells after one stroke on a buffer of the given area.
pub open spec fn stroked(
    cells: Map<(int, int), Glyph>,
    area: Rect,
    stroke: Stroke,
) -> Map<(int, int), Glyph> {
    match stroke {
        Stroke::Clear { area: cleared_area } => cleared(cells, cleared_area),
        Stroke::Fill { area: filled_area, style } => filled(cells, filled_area, style),
        Stroke::Text { x, y, text, width, style } => printed(
            cells,
            area,
            x,
            y,
            text,
            width,
            style,
        ),
        Stroke::Frame { area: frame, title, style, border } => framed(
            cells,
            area,
            frame,
            title,
            style,
            border,
        ),
        Stroke::Mark { x, y, glyph, style, on_text } => decorated(
            cells,
            x as int,
            y as int,
            glyph,
            style,
            on_text,
        ),
        Stroke::List { area: list, rows } => listed(cells, area, list, rows),
        Stroke::Paragraph { area: paragraph, lines } => laid_out(cells, area, paragraph, lines),
    }
}

/// The cells after a drawing.
pub open spec fn drawn(
    cells: Map<(int, int), Glyph>,
    area: Rect,
    list: Seq<Stroke>,
) -> Map<(int, int), Glyph>
    decreases list.len(),
{
    if list.len() == 0 {
        cells
    } else {
        stroked(drawn(cells, area, list.drop_last()), area, list.last())
    }
}

/// The cells that some graphemes take side by side.
pub open spec fn total_width(list: Seq<Seq<char>>) -> int
    decreases list.len(),
{
    if list.len() == 0 {
        0
    } else {
        total_width(list.drop_last()) + cell_width(list.last())
    }
}

/// No grapheme that has a place in `width` cells takes more than `limit`, nor
/// less than `least` of them.
pub open spec fn all_of_width(list: Seq<Seq<char>>, width: int, least: int, limit: int) -> bool {
    forall|i: int|
        0 <= i < list.len() && cell_width(#[trigger] list[i]) <= width ==> least <= cell_width(
            list[i],
        ) <= limit
}

/// Whether a line that is wrapped at `width` cells stays within `spare` cells
/// more. Nothing is wrapped that has its place on one row. Where every
/// grapheme takes one cell, rows end in time. Otherwise the last grapheme of a
/// row may start behind the row's end, by less than the cells of the one
/// before it. Sums of widths stay below the largest coordinate.
pub open spec fn line_fits(line: Seq<char>, width: int, spare: int) -> bool {
    let list = graphemes(line);
    ||| total_width(list) <= width
    ||| width <= 0x3FFF && all_of_width(list, width, 1, 1)
    ||| width <= 0x3FFF && all_of_width(list, width, 0, spare)
}

/// Whether a buffer of the given area takes a paragraph.
pub open spec fn paragraph_fits(
    area: Rect,
    paragraph: Rect,
    lines: Seq<(Seq<char>, StyleParts)>,
) -> bool {
    let shown = paragraph.spec_intersection(area);
    shown.spec_is_empty() || forall|i: int|
        0 <= i < lines.len() ==> line_fits(
            (#[trigger] lines[i]).0,
            shown.width as int,
            area.spec_right() - shown.spec_right(),
        )
}

/// A stroke that starts on a buffer of the given area: a text starts on a row
/// of the buffer, and not left of it; a list ends on the screen.
pub open spec fn starts_on(area: Rect, stroke: Stroke) -> bool {
    match stroke {
        Stroke::Text { x, y, .. } => area.x <= x && area.y <= y < area.spec_bottom(),
        Stroke::List { area: list, .. } => list.x + list.width <= u16::MAX && list.y + list.height
            <= u16::MAX,
        _ => true,
    }
}

/// A stroke that a buffer of the given area takes: it starts on the buffer, and
/// a paragraph stays on it.
pub open spec fn paintable(area: Rect, stroke: Stroke) -> bool {
    &&& starts_on(area, stroke)
    &&& stroke matches Stroke::Paragraph { area: paragraph, lines } ==> paragraph_fits(
        area,
        paragraph,
        lines,
    )
}

/// The strokes that start on a buffer of the given area.
pub open spec fn all_start_on(area: Rect, list: Seq<Stroke>) -> bool {
    forall|i: int| 0 <= i < list.len() ==> starts_on(area, #[trigger] list[i])
}

/// A drawing without paragraphs.
pub open spec fn no_paragraphs(list: Seq<Stroke>) -> bool {
    forall|i: int| 0 <= i < list.len() ==> !((#[trigger] list[i]) is Paragraph)
}

/// A buffer takes a drawing without paragraphs whose strokes start on it.
pub proof fn lemma_no_paragraphs(area: Rect, list: Seq<Stroke>)
    requires
        no_paragraphs(list),
    ensures
        all_paintable(area, list) == all_start_on(area, list),
{
    if all_start_on(area, list) {
        assert forall|i: int| 0 <= i < list.len() implies paintable(area, #[trigger] list[i]) by {
            assert(starts_on(area, list[i]));
        }
    } else {
        let i = choose|i: int| 0 <= i < list.len() && !starts_on(area, #[trigger] list[i]);
        assert(!paintable(area, list[i]));
    }
}

/// The strokes that a buffer of the given area takes.
pub open spec fn all_paintable(area: Rect, list: Seq<Stroke>) -> bool {
    forall|i: int| 0 <= i < list.len() ==> paintable(area, #[trigger] list[i])
}

fn has_total_width(list: &Vec<String>, limit: u16) -> (result: bool)
    requires
        forall|i: int| 0 <= i < list@.len() ==> measurable(#[trigger] list@[i]@),
    ensures
        result == (total_width(texts(list@)) <= limit),
{
    let ghost all = texts(list@);
    let mut total: u32 = 0;
    let mut i: usize = 0;
    assert(all.take(0) =~= Seq::<Seq<char>>::empty());
    while i < list.len()
        invariant
            i <= list@.len(),
            all == texts(list@),
            total == total_width(all.take(i as int)),
            total <= limit,
            forall|k: int| 0 <= k < list@.len() ==> measurable(#[trigger] list@[k]@),
        decreases list@.len() - i,
    {
        proof {
            assert(all.take(i + 1).drop_last() =~= all.take(i as int));
            lemma_total_width(all, i + 1);
        }
        total += width_of(list[i].as_str()) as u32;
        if total > limit as u32 {
            return false;
        }
        i += 1;
    }
    assert(all.take(i as int) =~= all);
    true
}

proof fn lemma_total_width(list: Seq<Seq<char>>, count: int)
    requires
        0 <= count <= list.len(),
    ensures
        total_width(list.take(count)) <= total_width(list),
    decreases list.len(),
{
    if count < list.len() {
        assert(list.drop_last().take(count) =~= list.take(count));
        lemma_total_width(list.drop_last(), count);
    } else {
        assert(list.take(count) =~= list);
    }
}

fn has_widths(list: &Vec<String>, width: u16, least: u16, limit: u16) -> (result: bool)
    requires
        forall|i: int| 0 <= i < list@.len() ==> measurable(#[trigger] list@[i]@),
    ensures
        result == all_of_width(texts(list@), width as int, least as int, limit as int),
{
    let ghost all = texts(list@);
    let mut i: usize = 0;
    while i < list.len()
        invariant
            i <= list@.len(),
            all == texts(list@),
            forall|k: int|
                0 <= k < i && cell_width(#[trigger] all[k]) <= width ==> least <= cell_width(all[k])
                    <= limit,
            forall|k: int| 0 <= k < list@.len() ==> measurable(#[trigger] list@[k]@),
        decreases list@.len() - i,
    {
        assert(all[i as int] == list@[i as int]@);
        let own: u16 = width_of(list[i].as_str());
        if own <= width && (own < least || limit < own) {
            return false;
        }
        i += 1;
    }
    true
}

fn has_room(line: &str, width: u16, spare: u16) -> (result: bool)
    ensures
        result == line_fits(line@, width as int, spare as int),
{
    let list = graphemes_of(line);
    has_total_width(&list, width) || width <= 0x3FFF && (has_widths(&list, width, 1, 1)
        || has_widths(&list, width, 0, spare))
}

fn takes_paragraph(area: Rect, paragraph: Rect, lines: &Vec<StyledLine>) -> (result: bool)
    ensures
        result == paragraph_fits(area, paragraph, styled_views(lines@)),
{
    let shown = paragraph.intersection(area);
    if shown.is_empty() {
        return true;
    }
    let spare: u16 = area.right() - shown.right();
    let ghost all = styled_views(lines@);
    let mut i: usize = 0;
    while i < lines.len()
        invariant
            i <= lines@.len(),
            all == styled_views(lines@),
            shown == paragraph.spec_intersection(area),
            !shown.spec_is_empty(),
            spare == area.spec_right() - shown.spec_right(),
            forall|k: int|
                0 <= k < i ==> line_fits(
                    (#[trigger] all[k]).0,
                    shown.width as int,
                    spare as int,
                ),
        decreases lines@.len() - i,
    {
        assert(all[i as int].0 == lines@[i as int].text@);
        if !has_room(lines[i].text.as_str(), shown.width, spare) {
            return false;
        }
        i += 1;
    }
    true
}

/// Whether a buffer of the given area takes a drawing.
pub fn takes(area: Rect, list: &Vec<Paint>) -> (result: bool)
    ensures
        result == all_paintable(area, strokes(list@)),
{
    let mut i: usize = 0;
    while i < list.len()
        invariant
            i <= list@.len(),
            forall|k: int| 0 <= k < i ==> paintable(area, #[trigger] strokes(list@)[k]),
        decreases list@.len() - i,
    {
        assert(strokes(list@)[i as int] == list@[i as int]@);
        let fits = match &list[i] {
            Paint::Text { x, y, .. } => area.x <= *x && area.y <= *y && *y < area.bottom(),
            Paint::List { area: list, .. } => list.width <= u16::MAX - list.x && list.height
                <= u16::MAX - list.y,
            Paint::Paragraph { area: paragraph, lines } => takes_paragraph(area, *paragraph, lines),
            _ => true,
        };
        if !fits {
            return false;
        }
        i += 1;
    }
    true
}

/// A cell that a stroke may change on a buffer of the given area. A list or a
/// paragraph may change any.
pub open spec fn touches(area: Rect, stroke: Stroke, x: int, y: int) -> bool {
    match stroke {
        Stroke::Clear { area: cleared_area } => cleared_area.holds(x, y),
        Stroke::Fill { area: filled_area, .. } => filled_area.holds(x, y),
        Stroke::Text { x: left, y: row, width, .. } => y == row && left <= x < left + width && x
            < area.spec_right(),
        Stroke::Frame { area: frame, .. } => frame.holds(x, y),
        Stroke::Mark { x: column, y: row, .. } => x == column && y == row,
        Stroke::List { .. } => true,
        Stroke::Paragraph { .. } => true,
    }
}

/// No stroke of a drawing may change the cell.
pub open spec fn untouched(area: Rect, list: Seq<Stroke>, x: int, y: int) -> bool {
    forall|i: int| 0 <= i < list.len() ==> !touches(area, #[trigger] list[i], x, y)
}

/// Two drawings, one after the other, are one drawing.
pub proof fn drawings_join(
    cells: Map<(int, int), Glyph>,
    area: Rect,
    first: Seq<Stroke>,
    second: Seq<Stroke>,
)
    ensures
        drawn(drawn(cells, area, first), area, second) == drawn(cells, area, first + second),
    decreases second.len(),
{
    if second.len() == 0 {
        assert(first + second =~= first);
    } else {
        drawings_join(cells, area, first, second.drop_last());
        assert((first + second).drop_last() =~= first + second.drop_last());
    }
}

/// What stood in an area that a drawing clears at its start does not matter.
pub proof fn a_cleared_area_is_forgotten(
    first: Map<(int, int), Glyph>,
    second: Map<(int, int), Glyph>,
    area: Rect,
    list: Seq<Stroke>,
)
    requires
        list.len() > 0,
        list[0] is Clear,
        first.dom() == second.dom(),
        forall|at: (int, int)|
            first.contains_key(at) && !list[0]->Clear_area.holds(at.0, at.1)
                ==> #[trigger] first[at] == second[at],
    ensures
        drawn(first, area, list) == drawn(second, area, list),
{
    let start = list.take(1);
    let rest = list.skip(1);
    assert(start + rest =~= list);
    drawings_join(first, area, start, rest);
    drawings_join(second, area, start, rest);
    let clip = list[0]->Clear_area;
    assert(start.drop_last() =~= Seq::<Stroke>::empty());
    assert(drawn(first, area, start.drop_last()) == first);
    assert(drawn(second, area, start.drop_last()) == second);
    assert(drawn(first, area, start) == cleared(first, clip));
    assert(drawn(second, area, start) == cleared(second, clip));
    assert(cleared(first, clip) =~= cleared(second, clip));
}

fn mark(
    buffer: &mut Buffer,
    x: u16,
    y: u16,
    glyph: &Option<String>,
    style: Style,
    on_text: bool,
)
    ensures
        buffer_area(*final(buffer)) == buffer_area(*old(buffer)),
        buffer_cells(*final(buffer)) == decorated(
            buffer_cells(*old(buffer)),
            x as int,
            y as int,
            match *glyph {
                Some(glyph) => Some(glyph@),
                None => None,
            },
            style_parts(style),
            on_text,
        ),
{
    let cell = Rect { x, y, width: 1, height: 1 };
    let symbol = match symbol_at(buffer, x, y) {
        Some(symbol) => symbol,
        None => {
            return ;
        },
    };
    let space = " ";
    proof {
        reveal_strlit(" ");
        assert(space@ =~= seq![' ']);
    }
    if same_text(symbol.as_str(), space) {
        if let Some(glyph) = glyph {
            if measure(glyph.as_str()) == 1 {
                set_symbol(buffer, x, y, glyph.as_str());
            }
        }
        fill(buffer, cell, style);
    } else if on_text {
        fill(buffer, cell, style);
    }
}

/// Carries out a drawing.
pub fn paint(buffer: &mut Buffer, list: &Vec<Paint>)
    requires
        all_paintable(buffer_area(*old(buffer)), strokes(list@)),
    ensures
        buffer_area(*final(buffer)) == buffer_area(*old(buffer)),
        buffer_cells(*final(buffer)) == drawn(
            buffer_cells(*old(buffer)),
            buffer_area(*old(buffer)),
            strokes(list@),
        ),
        buffer_cells(*final(buffer)).dom() == buffer_cells(*old(buffer)).dom(),
        forall|at: (int, int)|
            buffer_cells(*old(buffer)).contains_key(at) && untouched(
                buffer_area(*old(buffer)),
                strokes(list@),
                at.0,
                at.1,
            ) ==> #[trigger] buffer_cells(*final(buffer))[at] == buffer_cells(*old(buffer))[at],
        forall|at: (int, int), k: int|
            0 <= k <= list@.len() && buffer_cells(*old(buffer)).contains_key(at)
                && #[trigger] untouched(
                buffer_area(*old(buffer)),
                strokes(list@).skip(k),
                at.0,
                at.1,
            ) ==> buffer_cells(*final(buffer))[at] == drawn(
                buffer_cells(*old(buffer)),
                buffer_area(*old(buffer)),
                strokes(list@).take(k),
            )[at],
{
    let ghost cells = buffer_cells(*old(buffer));
    let ghost area = buffer_area(*old(buffer));
    let mut i: usize = 0;
    assert(strokes(list@).take(0) =~= Seq::<Stroke>::empty());
    while i < list.len()
        invariant
            i <= list@.len(),
            all_paintable(area, strokes(list@)),
            buffer_area(*buffer) == area,
            buffer_cells(*buffer).dom() == cells.dom(),
            forall|at: (int, int)|
                cells.contains_key(at) && untouched(area, strokes(list@), at.0, at.1)
                    ==> #[trigger] buffer_cells(*buffer)[at] == cells[at],
            buffer_cells(*buffer) == drawn(cells, area, strokes(list@).take(i as int)),
            forall|at: (int, int), k: int|
                0 <= k <= i && cells.contains_key(at) && #[trigger] untouched(
                    area,
                    strokes(list@).skip(k),
                    at.0,
                    at.1,
                ) ==> buffer_cells(*buffer)[at] == drawn(cells, area, strokes(list@).take(k))[at],
        decreases list@.len() - i,
    {
        assert(strokes(list@)[i as int] == list@[i as int]@);
        assert(paintable(area, strokes(list@)[i as int]));
        let ghost before = buffer_cells(*buffer);
        match &list[i] {
            Paint::Clear { area } => clear(buffer, *area),
            Paint::Fill { area, style } => fill(buffer, *area, *style),
            Paint::Text { x, y, text, width, style } => print(
                buffer,
                *x,
                *y,
                text.as_str(),
                *width,
                *style,
            ),
            Paint::Frame { area, title, style, border } => frame(
                buffer,
                *area,
                title.as_str(),
                *style,
                *border,
            ),
            Paint::Mark { x, y, glyph, style, on_text } => mark(
                buffer,
                *x,
                *y,
                glyph,
                *style,
                *on_text,
            ),
            Paint::List { area, rows } => list_rows(buffer, *area, rows),
            Paint::Paragraph { area, lines } => lay_out(buffer, *area, lines),
        }
        assert forall|at: (int, int)|
            cells.contains_key(at) && untouched(
                area,
                strokes(list@),
                at.0,
                at.1,
            ) implies #[trigger] buffer_cells(*buffer)[at] == cells[at] by {
            assert(!touches(area, strokes(list@)[i as int], at.0, at.1));
            assert(before.contains_key(at));
            assert(before[at] == cells[at]);
        }
        assert(buffer_cells(*buffer).dom() =~= before.dom());
        i += 1;
        assert(strokes(list@).take(i as int).drop_last() =~= strokes(list@).take(i - 1));
        assert(strokes(list@).take(i as int).last() == list@[i - 1]@);
        assert forall|at: (int, int), k: int|
            0 <= k <= i && cells.contains_key(at) && #[trigger] untouched(
                area,
                strokes(list@).skip(k),
                at.0,
                at.1,
            ) implies buffer_cells(*buffer)[at] == drawn(
            cells,
            area,
            strokes(list@).take(k),
        )[at] by {
            if k < i {
                assert(strokes(list@).skip(k)[i - 1 - k] == strokes(list@)[i - 1]);
                assert(!touches(area, strokes(list@)[i - 1], at.0, at.1));
                assert(before.contains_key(at));
                assert(buffer_cells(*buffer)[at] == before[at]);
            }
        }
    }
    assert(strokes(list@).take(i as int) =~= strokes(list@));
}

} // verus!
