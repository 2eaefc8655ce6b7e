//! Drawing an editor snapshot, and finding out what stands under a terminal
//! cell.
//!
//! A snapshot holds display-ready text and terminal-cell coordinates; nothing
//! here knows where they came from.

use ratatui::buffer::Buffer;
use ratatui::style::Style;
use vstd::prelude::*;
use vstd::string::*;

use crate::geometry::{
    above_zero, at_most, coordinate, coordinate_or, greatest, intersection_holds_the_shared_cells,
    least, window_shows_the_selection, window_start, window_start_of, word, Position, Rect,
};
use crate::paint::{
    a_cleared_area_is_forgotten, add_modifiers, all_paintable, area_of, background_style,
    buffer_area, buffer_cells, cell_width, drawings_join, drawn, graphemes, graphemes_of, measurable, no_parts,
    only_background, paint, paintable, patch_style, measure, patched, plain_style, shown_width,
    strokes, style_parts, touches, untouched, width_of, with_modifiers, Glyph, Paint,
    Stroke, StyleParts, BOLD, DIM, REVERSED,
};
use crate::text::{
    byte_len, char_len, chars_of, control, decimal, decimal_string, index_at, is_control,
    lemma_index_at_prefix, lemma_utf8_len_prefix, push_decimal, texts, utf8_len,
};

verus! {

/// A cursor in the whole document.
///
/// `column` is a terminal-cell column, not a byte, char, or grapheme offset.
#[derive(Clone, Copy, Debug, PartialEq, Eq, Structural)]
pub struct Cursor {
    pub row: usize,
    pub column: usize,
}

impl Cursor {
    /// The cursor stands before another one.
    pub open spec fn before(self, other: Cursor) -> bool {
        self.row < other.row || (self.row == other.row && self.column < other.column)
    }

    fn is_before(&self, other: &Cursor) -> (result: bool)
        ensures
            result == self.before(*other),
    {
        self.row < other.row || (self.row == other.row && self.column < other.column)
    }
}

/// A position in the display-ready text.
///
/// `byte_column` is a UTF-8 byte offset in the display line.
#[derive(Clone, Copy, Debug, PartialEq, Eq, Structural)]
pub struct TextPosition {
    pub row: usize,
    pub byte_column: usize,
}

/// A half-open selection in terminal-cell coordinates.
#[derive(Clone, Copy, Debug, PartialEq, Eq, Structural)]
pub struct SelectionRange {
    pub start: Cursor,
    pub end: Cursor,
}

/// A half-open highlight in terminal-cell coordinates. Only the background of
/// `style` is drawn.
#[derive(Clone, Copy, Debug, PartialEq, Eq)]
pub struct BackgroundRange {
    pub range: SelectionRange,
    pub style: Style,
}

/// A half-open styled part of one line, in terminal-cell coordinates.
#[derive(Clone, Copy, Debug, PartialEq, Eq)]
pub struct StyleSpan {
    pub start_column: usize,
    pub end_column: usize,
    pub style: Style,
}

/// A decoration of one cell.
///
/// The glyph is drawn only on a blank cell, so that markers and guides leave
/// the text alone. `style_on_text` also styles an occupied cell.
#[derive(Debug, PartialEq, Eq)]
pub struct CellDecoration {
    pub row: usize,
    pub column: usize,
    pub glyph: Option<String>,
    pub style: Style,
    pub style_on_text: bool,
}

/// Virtual text behind a display line.
#[derive(Debug, PartialEq, Eq)]
pub struct InlineAnnotation {
    pub row: usize,
    pub column: usize,
    pub text: String,
    pub style: Style,
}

/// The document position at the top left of the body.
#[derive(Clone, Copy, Debug, PartialEq, Eq, Structural)]
pub struct Viewport {
    pub top_row: usize,
    pub left_column: usize,
}

impl Default for Viewport {
    fn default() -> (viewport: Self)
        ensures
            viewport == (Viewport { top_row: 0, left_column: 0 }),
    {
        Viewport { top_row: 0, left_column: 0 }
    }
}

/// One row of an overlay.
#[derive(Debug, PartialEq, Eq)]
pub struct OverlayRow {
    pub text: String,
    pub enabled: bool,
}

impl Default for OverlayRow {
    fn default() -> (row: Self)
        ensures
            row.text@ == Seq::<char>::empty(),
            !row.enabled,
    {
        OverlayRow { text: String::new(), enabled: false }
    }
}

/// A picker, menu, completion list, or panel as the terminal shows it.
#[derive(Debug, PartialEq, Eq)]
pub struct OverlaySnapshot {
    pub title: String,
    pub rows: Vec<OverlayRow>,
    pub selected: Option<usize>,
}

impl Default for OverlaySnapshot {
    fn default() -> (overlay: Self)
        ensures
            overlay.title@ == Seq::<char>::empty(),
            overlay.rows@ == Seq::<OverlayRow>::empty(),
            overlay.selected is None,
    {
        OverlaySnapshot { title: String::new(), rows: Vec::new(), selected: None }
    }
}

/// What a frame of the editor shows.
#[derive(Debug, PartialEq, Eq)]
pub struct RenderSnapshot {
    /// The display row of the first entry of the row-local lists.
    pub first_row: usize,
    /// The number of display rows in the document.
    pub total_rows: usize,
    /// Display-ready rows, from `first_row` on.
    pub lines: Vec<String>,
    /// The one-based buffer line of each display row; rows that the display
    /// inserted have none.
    pub line_numbers: Vec<Option<u32>>,
    /// The largest one-based line number of the buffer, so that the gutter
    /// keeps its width while scrolling.
    pub widest_line_number: u32,
    pub cursor: Option<Cursor>,
    /// The cursors besides the terminal's own.
    pub secondary_cursors: Vec<Cursor>,
    /// The one-based buffer line of the cursor, even when it is off screen.
    pub cursor_line_number: Option<u32>,
    pub selections: Vec<SelectionRange>,
    pub text_style: Style,
    pub gutter_style: Style,
    pub line_styles: Vec<Vec<StyleSpan>>,
    pub background_ranges: Vec<BackgroundRange>,
    pub cell_decorations: Vec<CellDecoration>,
    pub inline_annotations: Vec<InlineAnnotation>,
    pub viewport: Viewport,
    pub status: String,
    /// The cell of an input cursor on the status row.
    pub status_cursor_column: Option<usize>,
    /// The topmost overlay.
    pub overlay: Option<OverlaySnapshot>,
}

impl Default for RenderSnapshot {
    fn default() -> (snapshot: Self)
        ensures
            snapshot.first_row == 0,
            snapshot.total_rows == 0,
            snapshot.lines@.len() == 0,
            snapshot.line_numbers@.len() == 0,
            snapshot.widest_line_number == 0,
            snapshot.cursor is None,
            snapshot.secondary_cursors@.len() == 0,
            snapshot.cursor_line_number is None,
            snapshot.selections@.len() == 0,
            style_parts(snapshot.text_style) == no_parts(),
            style_parts(snapshot.gutter_style) == no_parts(),
            snapshot.line_styles@.len() == 0,
            snapshot.background_ranges@.len() == 0,
            snapshot.cell_decorations@.len() == 0,
            snapshot.inline_annotations@.len() == 0,
            snapshot.viewport == (Viewport { top_row: 0, left_column: 0 }),
            snapshot.status@ == Seq::<char>::empty(),
            snapshot.status_cursor_column is None,
            snapshot.overlay is None,
    {
        RenderSnapshot {
            first_row: 0,
            total_rows: 0,
            lines: Vec::new(),
            line_numbers: Vec::new(),
            widest_line_number: 0,
            cursor: None,
            secondary_cursors: Vec::new(),
            cursor_line_number: None,
            selections: Vec::new(),
            text_style: plain_style(),
            gutter_style: plain_style(),
            line_styles: Vec::new(),
            background_ranges: Vec::new(),
            cell_decorations: Vec::new(),
            inline_annotations: Vec::new(),
            viewport: Viewport { top_row: 0, left_column: 0 },
            status: String::new(),
            status_cursor_column: None,
            overlay: None,
        }
    }
}

/// The column where the grapheme `k` of a line starts: the cells of those
/// before it.
pub open spec fn columns(list: Seq<Seq<char>>, k: int) -> int
    decreases k,
{
    if k <= 0 {
        0
    } else {
        word(columns(list, k - 1) + cell_width(list[k - 1]))
    }
}

/// Later graphemes do not start further left.
pub proof fn columns_grow(list: Seq<Seq<char>>, i: int, j: int)
    requires
        0 <= i <= j,
    ensures
        0 <= columns(list, i) <= columns(list, j) <= usize::MAX,
    decreases j,
{
    if i < j {
        columns_grow(list, i, j - 1);
    } else if i > 0 {
        columns_grow(list, i - 1, j - 1);
    }
}

/// The first grapheme from `from` on that covers the column or starts behind
/// it; the number of graphemes where the line ends before.
pub open spec fn hit(list: Seq<Seq<char>>, column: int, from: int) -> int
    decreases list.len() - from,
{
    if from >= list.len() {
        list.len() as int
    } else if cell_width(list[from]) > 0 && column < columns(list, from + 1) {
        from
    } else {
        hit(list, column, from + 1)
    }
}

/// The first character from `from` on that is no control character.
pub open spec fn past_controls(line: Seq<char>, from: int) -> int
    decreases line.len() - from,
{
    if 0 <= from < line.len() && control(line[from]) {
        past_controls(line, from + 1)
    } else {
        from
    }
}

/// The character behind the first `k` graphemes of a line. Graphemes follow one
/// another; what a terminal cannot show between them are control characters,
/// which stand in no grapheme with others. They take no cells, but they count
/// as characters of the line.
pub open spec fn grapheme_end(line: Seq<char>, list: Seq<Seq<char>>, k: int) -> int
    decreases k, 0int,
{
    if k <= 0 {
        0
    } else {
        least(grapheme_start(line, list, k - 1) + list[k - 1].len(), line.len() as int)
    }
}

/// The character where the grapheme `k` of a line starts.
pub open spec fn grapheme_start(line: Seq<char>, list: Seq<Seq<char>>, k: int) -> int
    decreases k, 1int,
{
    past_controls(line, grapheme_end(line, list, k))
}

/// The character nearest to a column of a line: where a grapheme covers the
/// column, the one where it starts in its left half, and the one behind it in
/// its right half.
pub open spec fn closest_char(line: Seq<char>, column: int) -> int {
    let list = graphemes(line);
    let k = hit(list, column, 0);
    if !(0 <= k < list.len()) {
        line.len() as int
    } else if (column - columns(list, k)) * 2 < cell_width(list[k]) {
        grapheme_start(line, list, k)
    } else {
        grapheme_end(line, list, k + 1)
    }
}

/// The byte offset in a line nearest to a column.
pub open spec fn closest_byte(line: Seq<char>, column: int) -> nat {
    utf8_len(line.take(closest_char(line, column)))
}

proof fn lemma_past_controls(line: Seq<char>, from: int)
    requires
        0 <= from <= line.len(),
    ensures
        from <= past_controls(line, from) <= line.len(),
    decreases line.len() - from,
{
    if from < line.len() && control(line[from]) {
        lemma_past_controls(line, from + 1);
    }
}

proof fn lemma_grapheme_ends(line: Seq<char>, list: Seq<Seq<char>>, k: int)
    requires
        0 <= k,
    ensures
        0 <= grapheme_end(line, list, k) <= grapheme_start(line, list, k) <= line.len(),
    decreases k,
{
    if k > 0 {
        lemma_grapheme_ends(line, list, k - 1);
    }
    lemma_past_controls(line, grapheme_end(line, list, k));
}

/// The nearest byte is one where a character starts, or the end of the line.
pub proof fn the_closest_byte_is_a_boundary(line: Seq<char>, column: int)
    requires
        0 <= column,
    ensures
        0 <= closest_char(line, column) <= line.len(),
        index_at(line, closest_byte(line, column) as int) == Some(closest_char(line, column)),
{
    let list = graphemes(line);
    let k = hit(list, column, 0);
    lemma_hit(list, column, 0);
    lemma_grapheme_ends(line, list, k);
    lemma_grapheme_ends(line, list, k + 1);
    lemma_index_at_prefix(line, closest_char(line, column));
}

/// What `hit` finds: the grapheme covers the column.
pub proof fn lemma_hit(list: Seq<Seq<char>>, column: int, from: int)
    requires
        0 <= from <= list.len(),
        columns(list, from) <= column,
    ensures
        ({
            let k = hit(list, column, from);
            &&& from <= k <= list.len()
            &&& k < list.len() ==> cell_width(list[k]) > 0 && columns(list, k) <= column
                < columns(list, k + 1)
            &&& columns(list, k) <= column
        }),
    decreases list.len() - from,
{
    if from < list.len() {
        if !(cell_width(list[from]) > 0 && column < columns(list, from + 1)) {
            columns_grow(list, from, from + 1);
            if cell_width(list[from]) == 0 {
                columns_grow(list, 0, from);
            }
            lemma_hit(list, column, from + 1);
        }
    }
}

/// Looks for the grapheme under a column: its index, the column where it
/// starts and the column where it ends.
fn find_hit(list: &Vec<String>, column: usize) -> (found: Option<(usize, usize, usize)>)
    requires
        forall|i: int| 0 <= i < list@.len() ==> measurable(#[trigger] list@[i]@),
    ensures
        match found {
            Some((k, left, right)) => {
                &&& k == hit(texts(list@), column as int, 0)
                &&& k < list@.len()
                &&& left == columns(texts(list@), k as int)
                &&& right == columns(texts(list@), k + 1)
                &&& left <= column < right
            },
            None => hit(texts(list@), column as int, 0) == list@.len(),
        },
{
    let ghost all = texts(list@);
    let mut k: usize = 0;
    let mut left: usize = 0;
    while k < list.len()
        invariant
            all == texts(list@),
            k <= list@.len(),
            left == columns(all, k as int),
            left <= column,
            hit(all, column as int, 0) == hit(all, column as int, k as int),
            forall|i: int| 0 <= i < list@.len() ==> measurable(#[trigger] list@[i]@),
        decreases list@.len() - k,
    {
        proof {
            columns_grow(all, k as int, k + 1);
        }
        let width: usize = width_of(list[k].as_str()) as usize;
        let right: usize = left.saturating_add(width);
        if width > 0 && column < right {
            return Some((k, left, right));
        }
        left = right;
        k += 1;
    }
    None
}

/// The first character from `from` on that is no control character.
fn skip_controls(chars: &Vec<char>, from: usize) -> (to: usize)
    requires
        from <= chars@.len(),
    ensures
        to == past_controls(chars@, from as int),
        to <= chars@.len(),
{
    let mut to: usize = from;
    while to < chars.len() && is_control(chars[to])
        invariant
            to <= chars@.len(),
            past_controls(chars@, to as int) == past_controls(chars@, from as int),
        decreases chars@.len() - to,
    {
        to += 1;
    }
    to
}

/// Where the grapheme `k` of a line starts, and where it ends.
fn find_grapheme(chars: &Vec<char>, list: &Vec<String>, k: usize) -> (found: (usize, usize))
    requires
        k < list@.len(),
    ensures
        found.0 == grapheme_start(chars@, texts(list@), k as int),
        found.1 == grapheme_end(chars@, texts(list@), k + 1),
        found.0 <= found.1 <= chars@.len(),
{
    let ghost all = texts(list@);
    let count: usize = chars.len();
    let mut start: usize = skip_controls(chars, 0);
    let mut i: usize = 0;
    while i < k
        invariant
            count == chars@.len(),
            all == texts(list@),
            i <= k < list@.len(),
            start == grapheme_start(chars@, all, i as int),
            start <= count,
        decreases k - i,
    {
        let length: usize = chars_of(list[i].as_str()).len();
        let end: usize = at_most(start.saturating_add(length), count);
        start = skip_controls(chars, end);
        i += 1;
    }
    let length: usize = chars_of(list[k].as_str()).len();
    (start, at_most(start.saturating_add(length), count))
}

/// The nearest UTF-8 byte boundary for a terminal-cell column. A wide grapheme
/// is parted in its middle.
pub fn closest_text_byte_column(line: &str, target_column: usize) -> (byte: usize)
    ensures
        byte == closest_byte(line@, target_column as int),
        index_at(line@, byte as int) is Some,
        byte <= utf8_len(line@),
{
    let chars = chars_of(line);
    let list = graphemes_of(line);
    let limit: usize = byte_len(line);
    proof {
        the_closest_byte_is_a_boundary(line@, target_column as int);
    }
    let to: usize = match find_hit(&list, target_column) {
        Some((k, left, _)) => {
            let (start, end) = find_grapheme(&chars, &list, k);
            let width: usize = width_of(list[k].as_str()) as usize;
            if (target_column - left) * 2 < width {
                start
            } else {
                end
            }
        },
        None => chars.len(),
    };
    let mut bytes: usize = 0;
    let mut i: usize = 0;
    while i < to
        invariant
            chars@ == line@,
            i <= to <= chars@.len(),
            limit == utf8_len(line@),
            bytes == utf8_len(line@.take(i as int)),
        decreases to - i,
    {
        proof {
            lemma_utf8_len_prefix(line@, i + 1, line@.len() as int);
            assert(line@.take(line@.len() as int) =~= line@);
            assert(line@.take(i + 1).drop_last() =~= line@.take(i as int));
        }
        bytes += char_len(chars[i]);
        i += 1;
    }
    proof {
        lemma_utf8_len_prefix(line@, to as int, line@.len() as int);
        assert(line@.take(line@.len() as int) =~= line@);
    }
    bytes
}

/// The largest of some line numbers, if there is any.
pub open spec fn largest(numbers: Seq<Option<u32>>) -> Option<int>
    decreases numbers.len(),
{
    if numbers.len() == 0 {
        None
    } else {
        larger(
            largest(numbers.drop_last()),
            match numbers.last() {
                Some(number) => Some(number as int),
                None => None,
            },
        )
    }
}

/// The larger of two numbers that need not be there.
pub open spec fn larger(a: Option<int>, b: Option<int>) -> Option<int> {
    match (a, b) {
        (Some(m), Some(n)) => Some(greatest(m, n)),
        (Some(m), None) => Some(m),
        (None, n) => n,
    }
}

/// The width of the gutter: the digits and a blank, or nothing where that
/// would leave no cell for the text.
pub open spec fn gutter_for(digits: int, width: int) -> int {
    let desired = if digits == 0 {
        0
    } else {
        coordinate(digits + 1)
    };
    if desired < width {
        desired
    } else {
        0
    }
}

/// The digits of the largest line number of a document.
pub open spec fn digits_of(widest_line_number: int) -> int {
    if widest_line_number == 0 {
        0
    } else {
        decimal(widest_line_number as nat).len() as int
    }
}

/// A decimal number has between one and `n + 1` digits.
proof fn lemma_decimal_len(n: nat)
    ensures
        1 <= decimal(n).len() <= n + 1,
    decreases n,
{
    if n >= 10 {
        lemma_decimal_len(n / 10);
    }
}

/// The gutter always leaves a cell for the text.
pub proof fn gutter_leaves_a_cell(digits: int, width: int)
    requires
        0 <= digits,
        0 < width <= u16::MAX,
    ensures
        0 <= gutter_for(digits, width) < width,
{
}

impl RenderSnapshot {
    /// The index of a document row among the captured rows.
    pub open spec fn local_row(self, row: int) -> Option<int> {
        if self.first_row <= row < self.first_row + self.lines@.len() {
            Some(row - self.first_row)
        } else {
            None
        }
    }

    /// The text of a captured document row.
    pub open spec fn row_text(self, row: int) -> Option<Seq<char>> {
        match self.local_row(row) {
            Some(index) => Some(self.lines@[index]@),
            None => None,
        }
    }

    /// The line number of a captured document row.
    pub open spec fn row_number(self, row: int) -> Option<u32> {
        match self.local_row(row) {
            Some(index) => if index < self.line_numbers@.len() {
                self.line_numbers@[index]
            } else {
                None
            },
            None => None,
        }
    }

    /// The digits of the largest line number; zero where there is none.
    pub open spec fn digits(self) -> int {
        let widest = if self.widest_line_number > 0 {
            Some(self.widest_line_number as int)
        } else {
            None
        };
        match larger(largest(self.line_numbers@), widest) {
            Some(number) => decimal(number as nat).len() as int,
            None => 0,
        }
    }

    /// The width of the gutter in an area.
    pub open spec fn gutter(self, area: Rect) -> int {
        gutter_for(self.digits(), area.width as int)
    }

    /// The part of an area behind the gutter.
    pub open spec fn text_rect(self, area: Rect) -> Rect {
        Rect::spec_new(
            coordinate(area.x + self.gutter(area)) as u16,
            area.y,
            (area.width - self.gutter(area)) as u16,
            area.height,
        )
    }

    /// What stands under a cell of an area: the position in the text and the
    /// column, which can lie behind the end of the line. The gutter, the
    /// status row, rows without text, and graphemes cut by an edge have none.
    pub open spec fn hit_at(self, area: Rect, at: Position) -> Option<(TextPosition, usize)> {
        let text = self.text_rect(area);
        let row = self.viewport.top_row + (at.y - area.y);
        let left = self.viewport.left_column as int;
        let column = left + (at.x - text.x);
        if area.height <= 1 || !(area.y <= at.y < coordinate(area.y + (area.height - 1))) {
            None
        } else if !(text.x <= at.x < text.spec_right()) {
            None
        } else if row > usize::MAX || column > usize::MAX || self.row_text(row) is None {
            None
        } else {
            let line = self.row_text(row)->0;
            let list = graphemes(line);
            let k = hit(list, column, 0);
            if k < list.len() && (columns(list, k) < left || columns(list, k + 1) > word(
                left + text.width,
            )) {
                None
            } else {
                Some(
                    (
                        TextPosition {
                            row: row as usize,
                            byte_column: closest_byte(line, column) as usize,
                        },
                        column as usize,
                    ),
                )
            }
        }
    }

    /// Where the cursor stands in an area: on the status row where a prompt
    /// has it, else on the body where its cell is visible.
    pub open spec fn cursor_cell(self, area: Rect) -> Option<Position> {
        let text = self.text_rect(area);
        if area.width == 0 || area.height == 0 {
            None
        } else if let Some(column) = self.status_cursor_column {
            let x = area.x + least(column as int, area.width - 1);
            let y = area.y + (area.height - 1);
            if x <= u16::MAX && y <= u16::MAX {
                Some(Position { x: x as u16, y: y as u16 })
            } else {
                None
            }
        } else if let Some(cursor) = self.cursor {
            let row = cursor.row - self.viewport.top_row;
            let column = cursor.column - self.viewport.left_column;
            if self.row_text(cursor.row as int) is Some && 0 <= row < text.height - 1 && 0 <= column
                < text.width && text.x + column <= u16::MAX && text.y + row <= u16::MAX {
                Some(Position { x: (text.x + column) as u16, y: (text.y + row) as u16 })
            } else {
                None
            }
        } else {
            None
        }
    }

    /// The text of the status row.
    pub open spec fn status_line(self) -> Seq<char> {
        match self.cursor {
            Some(cursor) => {
                let number = match self.cursor_line_number {
                    Some(number) => number as int,
                    None => match self.row_number(cursor.row as int) {
                        Some(number) => number as int,
                        None => word(cursor.row + 1),
                    },
                };
                let count = word(self.secondary_cursors@.len() as int + 1);
                let place = "Ln "@ + decimal(number as nat) + ", Col "@ + decimal(
                    word(cursor.column + 1) as nat,
                );
                let shown = if count > 1 {
                    place + "  "@ + decimal(count as nat) + " cursors"@
                } else {
                    place
                };
                if self.status@.len() == 0 {
                    shown
                } else {
                    self.status@ + "  "@ + shown
                }
            },
            None => self.status@,
        }
    }

    fn local_row_index(&self, document_row: usize) -> (index: Option<usize>)
        ensures
            match self.local_row(document_row as int) {
                Some(row) => index is Some && index->0 == row,
                None => index is None,
            },
    {
        if document_row >= self.first_row && document_row - self.first_row < self.lines.len() {
            Some(document_row - self.first_row)
        } else {
            None
        }
    }

    fn line_number(&self, document_row: usize) -> (number: Option<u32>)
        ensures
            number == self.row_number(document_row as int),
    {
        match self.local_row_index(document_row) {
            Some(index) => if index < self.line_numbers.len() {
                self.line_numbers[index]
            } else {
                None
            },
            None => None,
        }
    }
}

/// Draws a [`RenderSnapshot`]. The last row of the area is the status line.
#[derive(Clone, Copy, Debug)]
pub struct EditorWidget<'a> {
    snapshot: &'a RenderSnapshot,
}

impl<'a> View for EditorWidget<'a> {
    type V = RenderSnapshot;

    closed spec fn view(&self) -> RenderSnapshot {
        *self.snapshot
    }
}

impl<'a> EditorWidget<'a> {
    pub fn new(snapshot: &'a RenderSnapshot) -> (widget: Self)
        ensures
            widget@ == *snapshot,
    {
        EditorWidget { snapshot }
    }

    /// The cells for text behind the gutter.
    pub fn text_width(&self, area: Rect) -> (width: u16)
        ensures
            width == area.width - self@.gutter(area),
    {
        area.width - self.gutter_width(area)
    }

    /// The cells for text behind the gutter of a document with the given
    /// largest line number. Zero stands for no gutter.
    pub fn text_width_for_widest_line_number(area: Rect, widest_line_number: u32) -> (width: u16)
        ensures
            width == area.width - gutter_for(
                digits_of(widest_line_number as int),
                area.width as int,
            ),
    {
        proof {
            lemma_decimal_len(widest_line_number as nat);
        }
        let digits: usize = if widest_line_number == 0 {
            0
        } else {
            Self::digit_count(widest_line_number)
        };
        area.width - Self::gutter_width_for_digits(area, digits)
    }

    fn digit_count(number: u32) -> (count: usize)
        ensures
            count == decimal(number as nat).len(),
    {
        let digits = decimal_string(number as u64);
        let count: usize = digits.as_str().unicode_len();
        count
    }

    /// The text position under a cell of the body, if any.
    pub fn text_position_at(&self, area: Rect, position: Position) -> (result: Option<TextPosition>)
        ensures
            result == (match self@.hit_at(area, position) {
                Some((place, _)) => Some(place),
                None => None,
            }),
    {
        match self.text_position_and_column_at(area, position) {
            Some((place, _)) => Some(place),
            None => None,
        }
    }

    /// The text position and the document column under a cell of the body, if
    /// any. The column goes on behind the end of a line, so that a rectangular
    /// selection stays aligned over short lines.
    pub fn text_position_and_column_at(&self, area: Rect, position: Position) -> (result: Option<
        (TextPosition, usize),
    >)
        ensures
            result == self@.hit_at(area, position),
    {
        if area.width == 0 || area.height <= 1 {
            return None;
        }
        let body_bottom: u16 = area.y.saturating_add(area.height - 1);
        if position.y < area.y || position.y >= body_bottom {
            return None;
        }
        let text_area = self.text_area(area);
        if position.x < text_area.x || position.x >= text_area.right() {
            return None;
        }
        let screen_row: usize = (position.y - area.y) as usize;
        let row: usize = match self.snapshot.viewport.top_row.checked_add(screen_row) {
            Some(row) => row,
            None => {
                return None;
            },
        };
        let index: usize = match self.snapshot.local_row_index(row) {
            Some(index) => index,
            None => {
                return None;
            },
        };
        let screen_column: usize = (position.x - text_area.x) as usize;
        let left: usize = self.snapshot.viewport.left_column;
        let target: usize = match left.checked_add(screen_column) {
            Some(target) => target,
            None => {
                return None;
            },
        };
        let right: usize = left.saturating_add(text_area.width as usize);
        let line = self.snapshot.lines[index].as_str();
        let list = graphemes_of(line);
        match find_hit(&list, target) {
            Some((_, start_column, end_column)) => {
                // A grapheme that an edge cuts is not drawn, so it cannot be
                // clicked either.
                if start_column < left || end_column > right {
                    return None;
                }
            },
            None => {},
        }
        let byte_column: usize = closest_text_byte_column(line, target);
        Some((TextPosition { row, byte_column }, target))
    }

    fn line_number_digits(&self) -> (digits: usize)
        ensures
            digits == self@.digits(),
    {
        let numbers = &self.snapshot.line_numbers;
        let mut widest: Option<u32> = None;
        let mut i: usize = 0;
        assert(numbers@.take(0) =~= Seq::<Option<u32>>::empty());
        while i < numbers.len()
            invariant
                i <= numbers@.len(),
                (match widest {
                    Some(number) => Some(number as int),
                    None => None,
                }) == largest(numbers@.take(i as int)),
            decreases numbers@.len() - i,
        {
            widest = Self::larger_number(widest, numbers[i]);
            i += 1;
            assert(numbers@.take(i as int).drop_last() =~= numbers@.take(i - 1));
        }
        assert(numbers@.take(i as int) =~= numbers@);
        if self.snapshot.widest_line_number > 0 {
            widest = Self::larger_number(widest, Some(self.snapshot.widest_line_number));
        }
        match widest {
            Some(number) => Self::digit_count(number),
            None => 0,
        }
    }

    fn larger_number(a: Option<u32>, b: Option<u32>) -> (result: Option<u32>)
        ensures
            (match result {
                Some(number) => Some(number as int),
                None => None,
            }) == larger(
                match a {
                    Some(number) => Some(number as int),
                    None => None,
                },
                match b {
                    Some(number) => Some(number as int),
                    None => None,
                },
            ),
    {
        match (a, b) {
            (Some(m), Some(n)) => Some(
                if m <= n {
                    n
                } else {
                    m
                },
            ),
            (Some(m), None) => Some(m),
            (None, n) => n,
        }
    }

    fn gutter_width_for_digits(area: Rect, digits: usize) -> (width: u16)
        ensures
            width == gutter_for(digits as int, area.width as int),
            width <= area.width,
    {
        let desired: u16 = if digits == 0 {
            0
        } else {
            coordinate_or(digits.saturating_add(1), u16::MAX)
        };
        if desired < area.width {
            desired
        } else {
            0
        }
    }

    fn gutter_width(&self, area: Rect) -> (width: u16)
        ensures
            width == self@.gutter(area),
            width <= area.width,
    {
        Self::gutter_width_for_digits(area, self.line_number_digits())
    }

    fn text_area(&self, area: Rect) -> (rect: Rect)
        ensures
            rect == self@.text_rect(area),
    {
        let gutter: u16 = self.gutter_width(area);
        Rect::new(area.x.saturating_add(gutter), area.y, area.width - gutter, area.height)
    }

    /// Where the cursor stands in the area, if it is visible.
    pub fn cursor_position(&self, area: Rect) -> (result: Option<Position>)
        ensures
            result == self@.cursor_cell(area),
    {
        if area.width == 0 || area.height == 0 {
            return None;
        }
        if let Some(column) = self.snapshot.status_cursor_column {
            let column: usize = at_most(column, (area.width - 1) as usize);
            return match (area.x.checked_add(column as u16), area.y.checked_add(area.height - 1)) {
                (Some(x), Some(y)) => Some(Position { x, y }),
                _ => None,
            };
        }
        let text_area = self.text_area(area);
        let cursor = match self.snapshot.cursor {
            Some(cursor) => cursor,
            None => {
                return None;
            },
        };
        if self.snapshot.local_row_index(cursor.row).is_none() {
            return None;
        }
        let viewport = self.snapshot.viewport;
        if cursor.row < viewport.top_row || cursor.column < viewport.left_column {
            return None;
        }
        let row: usize = cursor.row - viewport.top_row;
        let column: usize = cursor.column - viewport.left_column;
        if text_area.height == 0 || row >= (text_area.height - 1) as usize || column
            >= text_area.width as usize {
            return None;
        }
        match (text_area.x.checked_add(column as u16), text_area.y.checked_add(row as u16)) {
            (Some(x), Some(y)) => Some(Position { x, y }),
            _ => None,
        }
    }

    /// The text of the status row.
    pub fn status_text(&self) -> (text: String)
        ensures
            text@ == self@.status_line(),
    {
        let snapshot = self.snapshot;
        let cursor = match snapshot.cursor {
            Some(cursor) => cursor,
            None => {
                return snapshot.status.clone();
            },
        };
        let number: u64 = match snapshot.cursor_line_number {
            Some(number) => number as u64,
            None => match snapshot.line_number(cursor.row) {
                Some(number) => number as u64,
                None => cursor.row.saturating_add(1) as u64,
            },
        };
        let count: usize = snapshot.secondary_cursors.len().saturating_add(1);
        let mut shown = "Ln ".to_owned();
        push_decimal(&mut shown, number);
        shown.append(", Col ");
        push_decimal(&mut shown, cursor.column.saturating_add(1) as u64);
        if count > 1 {
            shown.append("  ");
            push_decimal(&mut shown, count as u64);
            shown.append(" cursors");
        }
        if snapshot.status.as_str().is_empty() {
            shown
        } else {
            let mut text = snapshot.status.clone();
            text.append("  ");
            text.append(shown.as_str());
            text
        }
    }
}

/// A style under the spans that hold the cells from `start` to `end`.
pub open spec fn span_style(
    style: StyleParts,
    spans: Seq<StyleSpan>,
    start: int,
    end: int,
) -> StyleParts
    decreases spans.len(),
{
    if spans.len() == 0 {
        style
    } else {
        let before = span_style(style, spans.drop_last(), start, end);
        let span = spans.last();
        if span.start_column <= start && end <= span.end_column {
            patched(before, style_parts(span.style))
        } else {
            before
        }
    }
}

/// Where a line is drawn: on the row `y`, with its column `left` at the left
/// edge of `area`, and only within `clipped`.
pub struct Place {
    pub y: u16,
    pub area: Rect,
    pub clipped: Rect,
    pub left: usize,
}

impl Place {
    /// The first and the last column of the area that may be drawn on.
    pub open spec fn clip(self) -> (int, int) {
        let start = above_zero(self.clipped.x - self.area.x);
        (start, start + self.clipped.width)
    }

    /// The row is one of those that may be drawn on.
    pub open spec fn shows_row(self) -> bool {
        self.area.width > 0 && self.clipped.y <= self.y < self.clipped.spec_bottom()
    }

    /// The cells that a grapheme starting at the given column of the line may
    /// take, where it may start at all.
    pub open spec fn room(self, start: int) -> Option<int> {
        let screen = start - self.left;
        let (from, to) = self.clip();
        if self.left <= start < word(self.left + self.area.width) && screen < self.area.width
            && from <= screen < to && self.area.x + screen <= u16::MAX {
            Some(least(self.area.width - screen, to - screen))
        } else {
            None
        }
    }
}

/// What is drawn for the grapheme `k` of a line. A terminal cannot draw half
/// of a grapheme, so one that an edge cuts is not drawn.
pub open spec fn grapheme_stroke(
    list: Seq<Seq<char>>,
    k: int,
    style: StyleParts,
    spans: Seq<StyleSpan>,
    place: Place,
) -> Option<Stroke> {
    let start = columns(list, k);
    match place.room(start) {
        Some(room) if 0 < cell_width(list[k]) <= room => Some(
            Stroke::Text {
                x: (place.area.x + (start - place.left)) as u16,
                y: place.y,
                text: list[k],
                width: room as usize,
                style: span_style(style, spans, start, columns(list, k + 1)),
            },
        ),
        _ => None,
    }
}

/// A list of at most one stroke.
pub open spec fn maybe(stroke: Option<Stroke>) -> Seq<Stroke> {
    match stroke {
        Some(stroke) => seq![stroke],
        None => Seq::empty(),
    }
}

/// What is drawn for the first `k` graphemes of a line.
pub open spec fn grapheme_strokes(
    list: Seq<Seq<char>>,
    k: int,
    style: StyleParts,
    spans: Seq<StyleSpan>,
    place: Place,
) -> Seq<Stroke>
    decreases k,
{
    if k <= 0 {
        Seq::empty()
    } else {
        grapheme_strokes(list, k - 1, style, spans, place) + maybe(
            grapheme_stroke(list, k - 1, style, spans, place),
        )
    }
}

/// What is drawn for a line.
pub open spec fn line_strokes(
    line: Seq<char>,
    style: StyleParts,
    spans: Seq<StyleSpan>,
    place: Place,
) -> Seq<Stroke> {
    if place.shows_row() {
        grapheme_strokes(graphemes(line), graphemes(line).len() as int, style, spans, place)
    } else {
        Seq::empty()
    }
}

/// Nothing is drawn for graphemes that start where nothing may be drawn.
proof fn lemma_no_more_strokes(
    list: Seq<Seq<char>>,
    k: int,
    n: int,
    style: StyleParts,
    spans: Seq<StyleSpan>,
    place: Place,
)
    requires
        0 <= k <= n,
        forall|j: int| k <= j < n ==> grapheme_stroke(list, j, style, spans, place) is None,
    ensures
        grapheme_strokes(list, n, style, spans, place) == grapheme_strokes(
            list,
            k,
            style,
            spans,
            place,
        ),
    decreases n,
{
    if k < n {
        lemma_no_more_strokes(list, k, n - 1, style, spans, place);
        assert(grapheme_strokes(list, n, style, spans, place) =~= grapheme_strokes(
            list,
            n - 1,
            style,
            spans,
            place,
        ));
    }
}

/// A drawing that a buffer of the given area takes, and that keeps to some
/// cells.
pub open spec fn keeps_to(
    bounds: Rect,
    reach: spec_fn(int, int) -> bool,
    list: Seq<Stroke>,
) -> bool {
    forall|i: int| 0 <= i < list.len() ==> stays(bounds, reach, #[trigger] list[i])
}

/// A stroke that a buffer of the given area takes, and that keeps to some
/// cells.
pub open spec fn stays(bounds: Rect, reach: spec_fn(int, int) -> bool, stroke: Stroke) -> bool {
    &&& paintable(bounds, stroke)
    &&& forall|x: int, y: int| #[trigger] touches(bounds, stroke, x, y) ==> reach(x, y)
}

proof fn lemma_keeps_add(
    bounds: Rect,
    reach: spec_fn(int, int) -> bool,
    a: Seq<Stroke>,
    b: Seq<Stroke>,
)
    requires
        keeps_to(bounds, reach, a),
        keeps_to(bounds, reach, b),
    ensures
        keeps_to(bounds, reach, a + b),
{
    assert forall|i: int| 0 <= i < (a + b).len() implies stays(
        bounds,
        reach,
        #[trigger] (a + b)[i],
    ) by {
        if i < a.len() {
            assert((a + b)[i] == a[i]);
        } else {
            assert((a + b)[i] == b[i - a.len()]);
        }
    }
}

/// A cell that a line drawn in an area may reach on a buffer.
pub open spec fn reached(clipped: Rect, area: Rect, bounds: Rect, x: int, y: int) -> bool {
    &&& clipped.y <= y < clipped.spec_bottom()
    &&& clipped.x <= x < area.x + area.width
    &&& x < bounds.spec_right()
}

/// The rows of one rectangle are rows of another, and it does not start left
/// of it.
pub open spec fn starts_within(inner: Rect, outer: Rect) -> bool {
    &&& outer.x <= inner.x
    &&& inner.y < inner.spec_bottom() ==> outer.y <= inner.y && inner.spec_bottom()
        <= outer.spec_bottom()
}

proof fn lemma_append(before: Seq<Stroke>, list: Seq<Stroke>, more: Seq<Stroke>)
    ensures
        (before + list) + more == before + (list + more),
{
    assert((before + list) + more =~= before + (list + more));
}

proof fn lemma_line_keeps(
    line: Seq<char>,
    style: StyleParts,
    spans: Seq<StyleSpan>,
    place: Place,
    bounds: Rect,
    reach: spec_fn(int, int) -> bool,
)
    requires
        bounds.x <= place.clipped.x,
        place.shows_row() ==> bounds.y <= place.y < bounds.spec_bottom(),
        forall|x: int, y: int|
            #[trigger] reached(place.clipped, place.area, bounds, x, y) ==> reach(x, y),
    ensures
        keeps_to(bounds, reach, line_strokes(line, style, spans, place)),
{
    if place.shows_row() {
        lemma_graphemes_keep(
            graphemes(line),
            graphemes(line).len() as int,
            style,
            spans,
            place,
            bounds,
            reach,
        );
    }
}

proof fn lemma_graphemes_keep(
    list: Seq<Seq<char>>,
    k: int,
    style: StyleParts,
    spans: Seq<StyleSpan>,
    place: Place,
    bounds: Rect,
    reach: spec_fn(int, int) -> bool,
)
    requires
        bounds.x <= place.clipped.x,
        place.shows_row() ==> bounds.y <= place.y < bounds.spec_bottom(),
        forall|x: int, y: int|
            #[trigger] reached(place.clipped, place.area, bounds, x, y) ==> reach(x, y),
        place.shows_row(),
    ensures
        keeps_to(bounds, reach, grapheme_strokes(list, k, style, spans, place)),
    decreases k,
{
    if k > 0 {
        lemma_graphemes_keep(list, k - 1, style, spans, place, bounds, reach);
        if let Some(stroke) = grapheme_stroke(list, k - 1, style, spans, place) {
            assert forall|x: int, y: int| #[trigger] touches(bounds, stroke, x, y) implies reach(
                x,
                y,
            ) by {
                assert(reached(place.clipped, place.area, bounds, x, y));
            }
        }
        lemma_keeps_add(
            bounds,
            reach,
            grapheme_strokes(list, k - 1, style, spans, place),
            maybe(grapheme_stroke(list, k - 1, style, spans, place)),
        );
    }
}

/// Appends the drawing of a line.
fn render_line(line: &str, style: Style, spans: &Vec<StyleSpan>, place: &Place, out: &mut Vec<Paint>)
    ensures
        strokes(final(out)@) == strokes(old(out)@) + line_strokes(
            line@,
            style_parts(style),
            spans@,
            *place,
        ),
{
    let ghost before = strokes(out@);
    let ghost base = style_parts(style);
    let clipped = place.clipped;
    if place.area.width == 0 || place.y < clipped.y || place.y >= clipped.bottom() {
        assert(strokes(out@) =~= before + line_strokes(line@, base, spans@, *place));
        return ;
    }
    let left: usize = place.left;
    let area_width: usize = place.area.width as usize;
    let viewport_right: usize = left.saturating_add(area_width);
    let clip_left: usize = clipped.x.saturating_sub(place.area.x) as usize;
    let clip_right: usize = clip_left + clipped.width as usize;
    let list = graphemes_of(line);
    let ghost all = graphemes(line@);
    let ghost n = all.len() as int;
    let mut column: usize = 0;
    let mut k: usize = 0;
    assert(before + grapheme_strokes(all, 0, base, spans@, *place) =~= before);
    while k < list.len()
        invariant
            k <= list@.len(),
            all == texts(list@),
            n == all.len(),
            base == style_parts(style),
            left == place.left,
            area_width == place.area.width,
            viewport_right == word(left + area_width),
            (clip_left as int, clip_right as int) == place.clip(),
            column == columns(all, k as int),
            strokes(out@) == before + grapheme_strokes(all, k as int, base, spans@, *place),
            forall|i: int| 0 <= i < list@.len() ==> measurable(#[trigger] list@[i]@),
        ensures
            strokes(out@) == before + grapheme_strokes(all, n, base, spans@, *place),
        decreases list@.len() - k,
    {
        let symbol = list[k].as_str();
        assert(symbol@ == all[k as int]);
        let width: usize = width_of(symbol) as usize;
        let end_column: usize = column.saturating_add(width);
        if width > 0 {
            if column >= viewport_right || (column >= left && (column - left >= area_width
                || place.area.x as usize + (column - left) > u16::MAX as usize)) {
                proof {
                    assert forall|j: int| k <= j < n implies grapheme_stroke(
                        all,
                        j,
                        base,
                        spans@,
                        *place,
                    ) is None by {
                        columns_grow(all, k as int, j);
                    }
                    lemma_no_more_strokes(all, k as int, n, base, spans@, *place);
                }
                break ;
            }
        }
        let ghost here = strokes(out@);
        if width > 0 && column >= left {
            let screen: usize = column - left;
            if screen >= clip_left && screen < clip_right {
                let room: usize = at_most(area_width - screen, clip_right - screen);
                if width <= room {
                    let x: u16 = (place.area.x as usize + screen) as u16;
                    let style = styled(style, spans, column, end_column);
                    out.push(Paint::Text { x, y: place.y, text: list[k].clone(), width: room, style });
                    assert(strokes(out@) =~= here.push(out@.last()@));
                }
            }
        }
        assert(strokes(out@) =~= here + maybe(
            grapheme_stroke(all, k as int, base, spans@, *place),
        ));
        column = end_column;
        k += 1;
        assert(strokes(out@) =~= before + grapheme_strokes(all, k as int, base, spans@, *place));
    }
}

/// A style under the spans that hold the cells from `start` to `end`.
fn styled(style: Style, spans: &Vec<StyleSpan>, start: usize, end: usize) -> (result: Style)
    ensures
        style_parts(result) == span_style(
            style_parts(style),
            spans@,
            start as int,
            end as int,
        ),
{
    let mut result = style;
    let mut i: usize = 0;
    assert(spans@.take(0) =~= Seq::<StyleSpan>::empty());
    while i < spans.len()
        invariant
            i <= spans@.len(),
            style_parts(result) == span_style(
                style_parts(style),
                spans@.take(i as int),
                start as int,
                end as int,
            ),
        decreases spans@.len() - i,
    {
        let span = spans[i];
        if span.start_column <= start && end <= span.end_column {
            result = patch_style(result, span.style);
        }
        i += 1;
        assert(spans@.take(i as int).drop_last() =~= spans@.take(i - 1));
    }
    assert(spans@.take(i as int) =~= spans@);
    result
}

/// The strokes of the first `n` items of a list, in their order.
pub open spec fn each(n: int, strokes_of: spec_fn(int) -> Seq<Stroke>) -> Seq<Stroke>
    decreases n,
{
    if n <= 0 {
        Seq::empty()
    } else {
        each(n - 1, strokes_of) + strokes_of(n - 1)
    }
}

proof fn lemma_each_keeps(
    bounds: Rect,
    reach: spec_fn(int, int) -> bool,
    n: int,
    strokes_of: spec_fn(int) -> Seq<Stroke>,
)
    requires
        forall|i: int| 0 <= i < n ==> keeps_to(bounds, reach, #[trigger] strokes_of(i)),
    ensures
        keeps_to(bounds, reach, each(n, strokes_of)),
    decreases n,
{
    if n > 0 {
        lemma_each_keeps(bounds, reach, n - 1, strokes_of);
        lemma_keeps_add(bounds, reach, each(n - 1, strokes_of), strokes_of(n - 1));
    }
}

/// The visible cells of a range on one document row. A range that goes on to
/// the next row also covers a cell for the line break.
pub open spec fn visible_range(
    range: SelectionRange,
    row: int,
    line_width: int,
    place: Place,
) -> Option<Rect> {
    let first = if row == range.start.row {
        range.start.column as int
    } else {
        0
    };
    let last = if row == range.end.row {
        range.end.column as int
    } else {
        word(line_width + 1)
    };
    let start = greatest(first, place.left as int);
    let end = least(last, word(place.left + place.area.width));
    let x = greatest(coordinate(place.area.x + (start - place.left)), place.clipped.x as int);
    let right = least(
        coordinate(place.area.x + (end - place.left)),
        place.clipped.spec_right(),
    );
    if range.start.before(range.end) && range.start.row <= row <= range.end.row && start < end && x
        < right {
        Some(Rect::spec_new(x as u16, place.y, (right - x) as u16, 1))
    } else {
        None
    }
}

#[verifier::spinoff_prover]
#[verifier::rlimit(40)]
fn visible_range_rect(
    range: &SelectionRange,
    document_row: usize,
    line_width: usize,
    place: &Place,
) -> (rect: Option<Rect>)
    ensures
        rect == visible_range(*range, document_row as int, line_width as int, *place),
{
    if !range.start.is_before(&range.end) || document_row < range.start.row || document_row
        > range.end.row {
        return None;
    }
    let first: usize = if document_row == range.start.row {
        range.start.column
    } else {
        0
    };
    let last: usize = if document_row == range.end.row {
        range.end.column
    } else {
        line_width.saturating_add(1)
    };
    let left: usize = place.left;
    let viewport_right: usize = left.saturating_add(place.area.width as usize);
    let start: usize = if first <= left {
        left
    } else {
        first
    };
    let end: usize = at_most(last, viewport_right);
    if start >= end {
        return None;
    }
    let from: u16 = place.area.x.saturating_add((start - left) as u16);
    let to: u16 = place.area.x.saturating_add((end - left) as u16);
    let x: u16 = if from <= place.clipped.x {
        place.clipped.x
    } else {
        from
    };
    let right: u16 = if to <= place.clipped.right() {
        to
    } else {
        place.clipped.right()
    };
    if x < right {
        Some(Rect::new(x, place.y, right - x, 1))
    } else {
        None
    }
}

/// What is drawn for one highlight on a row.
pub open spec fn background_strokes(
    list: Seq<BackgroundRange>,
    row: int,
    line_width: int,
    place: Place,
) -> spec_fn(int) -> Seq<Stroke> {
    |i: int|
        match (style_parts(list[i].style).bg, visible_range(list[i].range, row, line_width, place)) {
            (Some(color), Some(area)) => seq![Stroke::Fill { area, style: only_background(color) }],
            _ => Seq::empty(),
        }
}

fn render_background_row(
    snapshot: &RenderSnapshot,
    document_row: usize,
    line: &str,
    place: &Place,
    out: &mut Vec<Paint>,
)
    ensures
        strokes(final(out)@) == strokes(old(out)@) + each(
            snapshot.background_ranges@.len() as int,
            background_strokes(
                snapshot.background_ranges@,
                document_row as int,
                shown_width(line@) as int,
                *place,
            ),
        ),
{
    let list = &snapshot.background_ranges;
    let line_width: usize = measure(line) as usize;
    let ghost before = strokes(out@);
    let ghost of = background_strokes(list@, document_row as int, line_width as int, *place);
    let mut i: usize = 0;
    assert(before + each(0, of) =~= before);
    while i < list.len()
        invariant
            i <= list@.len(),
            of == background_strokes(list@, document_row as int, line_width as int, *place),
            strokes(out@) == before + each(i as int, of),
        decreases list@.len() - i,
    {
        let ghost here = strokes(out@);
        if let Some(style) = background_style(list[i].style) {
            if let Some(area) = visible_range_rect(
                &list[i].range,
                document_row,
                line_width,
                place,
            ) {
                out.push(Paint::Fill { area, style });
                assert(strokes(out@) =~= here.push(out@.last()@));
            }
        }
        assert(strokes(out@) =~= here + of(i as int));
        i += 1;
        assert(strokes(out@) =~= before + each(i as int, of));
    }
}

/// What is drawn for one selection on a row.
pub open spec fn selection_strokes(
    list: Seq<SelectionRange>,
    row: int,
    line_width: int,
    place: Place,
) -> spec_fn(int) -> Seq<Stroke> {
    |i: int|
        match visible_range(list[i], row, line_width, place) {
            Some(area) => seq![
                Stroke::Fill { area, style: with_modifiers(no_parts(), REVERSED) },
            ],
            None => Seq::empty(),
        }
}

fn render_selection_row(
    snapshot: &RenderSnapshot,
    document_row: usize,
    line: &str,
    place: &Place,
    out: &mut Vec<Paint>,
)
    ensures
        strokes(final(out)@) == strokes(old(out)@) + each(
            snapshot.selections@.len() as int,
            selection_strokes(
                snapshot.selections@,
                document_row as int,
                shown_width(line@) as int,
                *place,
            ),
        ),
{
    let list = &snapshot.selections;
    let line_width: usize = measure(line) as usize;
    let style = add_modifiers(plain_style(), REVERSED);
    let ghost before = strokes(out@);
    let ghost of = selection_strokes(list@, document_row as int, line_width as int, *place);
    let mut i: usize = 0;
    assert(before + each(0, of) =~= before);
    while i < list.len()
        invariant
            i <= list@.len(),
            style_parts(style) == with_modifiers(no_parts(), REVERSED),
            of == selection_strokes(list@, document_row as int, line_width as int, *place),
            strokes(out@) == before + each(i as int, of),
        decreases list@.len() - i,
    {
        let ghost here = strokes(out@);
        if let Some(area) = visible_range_rect(&list[i], document_row, line_width, place) {
            out.push(Paint::Fill { area, style });
            assert(strokes(out@) =~= here.push(out@.last()@));
        }
        assert(strokes(out@) =~= here + of(i as int));
        i += 1;
        assert(strokes(out@) =~= before + each(i as int, of));
    }
}

/// What is drawn for one decoration on a row.
pub open spec fn decoration_strokes(
    list: Seq<CellDecoration>,
    row: int,
    place: Place,
) -> spec_fn(int) -> Seq<Stroke> {
    |i: int|
        {
            let mark = list[i];
            let x = place.area.x + (mark.column - place.left);
            if mark.row == row && place.left <= mark.column < word(place.left + place.area.width)
                && x <= u16::MAX && place.clipped.holds(x, place.y as int) {
                seq![
                    Stroke::Mark {
                        x: x as u16,
                        y: place.y,
                        glyph: match mark.glyph {
                            Some(glyph) => Some(glyph@),
                            None => None,
                        },
                        style: style_parts(mark.style),
                        on_text: mark.style_on_text,
                    },
                ]
            } else {
                Seq::empty()
            }
        }
}

fn copy_text(text: &Option<String>) -> (copy: Option<String>)
    ensures
        copy is Some == text is Some,
        text is Some ==> copy->0@ == text->0@,
{
    match text {
        Some(text) => Some(text.clone()),
        None => None,
    }
}

fn render_cell_decorations(
    snapshot: &RenderSnapshot,
    document_row: usize,
    place: &Place,
    out: &mut Vec<Paint>,
)
    ensures
        strokes(final(out)@) == strokes(old(out)@) + each(
            snapshot.cell_decorations@.len() as int,
            decoration_strokes(snapshot.cell_decorations@, document_row as int, *place),
        ),
{
    let list = &snapshot.cell_decorations;
    let left: usize = place.left;
    let right: usize = left.saturating_add(place.area.width as usize);
    let ghost before = strokes(out@);
    let ghost of = decoration_strokes(list@, document_row as int, *place);
    let mut i: usize = 0;
    assert(before + each(0, of) =~= before);
    while i < list.len()
        invariant
            i <= list@.len(),
            left == place.left,
            right == word(left + place.area.width),
            of == decoration_strokes(list@, document_row as int, *place),
            strokes(out@) == before + each(i as int, of),
        decreases list@.len() - i,
    {
        let ghost here = strokes(out@);
        let mark = &list[i];
        if mark.row == document_row && mark.column >= left && mark.column < right {
            if let Some(x) = place.area.x.checked_add((mark.column - left) as u16) {
                if place.clipped.contains(Position { x, y: place.y }) {
                    out.push(
                        Paint::Mark {
                            x,
                            y: place.y,
                            glyph: copy_text(&mark.glyph),
                            style: mark.style,
                            on_text: mark.style_on_text,
                        },
                    );
                    assert(strokes(out@) =~= here.push(out@.last()@));
                }
            }
        }
        assert(strokes(out@) =~= here + of(i as int));
        i += 1;
        assert(strokes(out@) =~= before + each(i as int, of));
    }
}

/// Where an annotation is drawn, where any of it is visible on a row.
pub open spec fn annotation_place(note: InlineAnnotation, row: int, place: Place) -> Option<Place> {
    let end = word(note.column + shown_width(note.text@));
    let start = greatest(note.column as int, place.left as int);
    let x = place.area.x + (start - place.left);
    if note.row == row && end > place.left && note.column < word(place.left + place.area.width) && x
        <= u16::MAX {
        Some(
            Place {
                area: Rect::spec_new(
                    x as u16,
                    place.y,
                    (place.area.width - (start - place.left)) as u16,
                    1,
                ),
                left: (start - note.column) as usize,
                ..place
            },
        )
    } else {
        None
    }
}

/// What is drawn for one annotation on a row.
pub open spec fn annotation_strokes(
    list: Seq<InlineAnnotation>,
    row: int,
    place: Place,
) -> spec_fn(int) -> Seq<Stroke> {
    |i: int|
        match annotation_place(list[i], row, place) {
            Some(at) if place.clipped.width > 0 && place.clipped.height > 0 => line_strokes(
                list[i].text@,
                style_parts(list[i].style),
                Seq::empty(),
                at,
            ),
            _ => Seq::empty(),
        }
}

fn render_inline_annotations(
    snapshot: &RenderSnapshot,
    document_row: usize,
    place: &Place,
    out: &mut Vec<Paint>,
)
    ensures
        strokes(final(out)@) == strokes(old(out)@) + each(
            snapshot.inline_annotations@.len() as int,
            annotation_strokes(snapshot.inline_annotations@, document_row as int, *place),
        ),
{
    let list = &snapshot.inline_annotations;
    let left: usize = place.left;
    let right: usize = left.saturating_add(place.area.width as usize);
    let no_spans: Vec<StyleSpan> = Vec::new();
    let ghost before = strokes(out@);
    let ghost of = annotation_strokes(list@, document_row as int, *place);
    let mut i: usize = 0;
    assert(before + each(0, of) =~= before);
    while i < list.len()
        invariant
            i <= list@.len(),
            left == place.left,
            right == word(left + place.area.width),
            no_spans@ == Seq::<StyleSpan>::empty(),
            of == annotation_strokes(list@, document_row as int, *place),
            strokes(out@) == before + each(i as int, of),
        decreases list@.len() - i,
    {
        let ghost here = strokes(out@);
        let note = &list[i];
        let end: usize = note.column.saturating_add(measure(note.text.as_str()) as usize);
        let start: usize = if note.column <= left {
            left
        } else {
            note.column
        };
        if note.row == document_row && end > left && note.column < right {
            let screen: u16 = (start - left) as u16;
            if let Some(x) = place.area.x.checked_add(screen) {
                if !place.clipped.is_empty() {
                    let at = Place {
                        y: place.y,
                        area: Rect::new(x, place.y, place.area.width - screen, 1),
                        clipped: place.clipped,
                        left: start - note.column,
                    };
                    render_line(note.text.as_str(), note.style, &no_spans, &at, out);
                }
            }
        }
        assert(strokes(out@) =~= here + of(i as int));
        i += 1;
        assert(strokes(out@) =~= before + each(i as int, of));
    }
}

/// What is drawn for one cursor besides the terminal's own.
pub open spec fn cursor_strokes(
    snapshot: RenderSnapshot,
    area: Rect,
    clipped: Rect,
) -> spec_fn(int) -> Seq<Stroke> {
    |i: int|
        {
            let cursor = snapshot.secondary_cursors@[i];
            let row = cursor.row - snapshot.viewport.top_row;
            let column = cursor.column - snapshot.viewport.left_column;
            let x = area.x + column;
            let y = area.y + row;
            let cell = Rect::spec_new(x as u16, y as u16, 1, 1).spec_intersection(clipped);
            if snapshot.row_text(cursor.row as int) is Some && 0 <= row < area.height && 0 <= column
                < area.width && x <= u16::MAX && y <= u16::MAX && !cell.spec_is_empty() {
                seq![
                    Stroke::Fill {
                        area: cell,
                        style: with_modifiers(with_modifiers(no_parts(), REVERSED), BOLD),
                    },
                ]
            } else {
                Seq::empty()
            }
        }
}

fn render_secondary_cursors(
    snapshot: &RenderSnapshot,
    area: Rect,
    clipped: Rect,
    out: &mut Vec<Paint>,
)
    ensures
        strokes(final(out)@) == strokes(old(out)@) + each(
            snapshot.secondary_cursors@.len() as int,
            cursor_strokes(*snapshot, area, clipped),
        ),
{
    let list = &snapshot.secondary_cursors;
    let style = add_modifiers(add_modifiers(plain_style(), REVERSED), BOLD);
    let top: usize = snapshot.viewport.top_row;
    let left: usize = snapshot.viewport.left_column;
    let ghost before = strokes(out@);
    let ghost of = cursor_strokes(*snapshot, area, clipped);
    let mut i: usize = 0;
    assert(before + each(0, of) =~= before);
    while i < list.len()
        invariant
            i <= list@.len(),
            list@ == snapshot.secondary_cursors@,
            top == snapshot.viewport.top_row,
            left == snapshot.viewport.left_column,
            style_parts(style) == with_modifiers(with_modifiers(no_parts(), REVERSED), BOLD),
            of == cursor_strokes(*snapshot, area, clipped),
            strokes(out@) == before + each(i as int, of),
        decreases list@.len() - i,
    {
        let ghost here = strokes(out@);
        let cursor = list[i];
        if snapshot.local_row_index(cursor.row).is_some() && cursor.row >= top && cursor.column
            >= left && cursor.row - top < area.height as usize && cursor.column - left
            < area.width as usize {
            let x = area.x.checked_add((cursor.column - left) as u16);
            let y = area.y.checked_add((cursor.row - top) as u16);
            if let (Some(x), Some(y)) = (x, y) {
                let cell = Rect::new(x, y, 1, 1).intersection(clipped);
                if !cell.is_empty() {
                    out.push(Paint::Fill { area: cell, style });
                    assert(strokes(out@) =~= here.push(out@.last()@));
                }
            }
        }
        assert(strokes(out@) =~= here + of(i as int));
        i += 1;
        assert(strokes(out@) =~= before + each(i as int, of));
    }
}

impl OverlaySnapshot {
    /// The selected row, where it is one of the rows.
    pub open spec fn shown_selection(self) -> Option<int> {
        match self.selected {
            Some(index) if index < self.rows@.len() => Some(index as int),
            _ => None,
        }
    }

    fn selection(&self) -> (selected: Option<usize>)
        ensures
            match self.shown_selection() {
                Some(index) => selected is Some && selected->0 == index,
                None => selected is None,
            },
    {
        match self.selected {
            Some(index) => if index < self.rows.len() {
                Some(index)
            } else {
                None
            },
            None => None,
        }
    }
}

/// The style of an overlay row: a selected one is reversed, a disabled one
/// dim.
pub open spec fn row_style(base: StyleParts, row: OverlayRow, selected: bool) -> StyleParts {
    if selected {
        with_modifiers(base, REVERSED)
    } else if !row.enabled {
        with_modifiers(base, DIM)
    } else {
        base
    }
}

/// What an overlay row reads: its text behind a marker.
pub open spec fn row_label(row: OverlayRow, selected: bool) -> Seq<char> {
    if selected {
        "\u{203a} "@ + row.text@
    } else {
        "  "@ + row.text@
    }
}

/// What is drawn for an overlay row: its background, then its text.
pub open spec fn overlay_row_strokes(
    row: OverlayRow,
    selected: bool,
    base: StyleParts,
    row_area: Rect,
    place: Place,
) -> Seq<Stroke> {
    let style = row_style(base, row, selected);
    seq![Stroke::Fill { area: row_area, style }] + line_strokes(
        row_label(row, selected),
        style,
        Seq::empty(),
        place,
    )
}

fn render_overlay_row(
    row: &OverlayRow,
    selected: bool,
    base: Style,
    row_area: Rect,
    place: &Place,
    out: &mut Vec<Paint>,
)
    ensures
        strokes(final(out)@) == strokes(old(out)@) + overlay_row_strokes(
            *row,
            selected,
            style_parts(base),
            row_area,
            *place,
        ),
{
    let ghost before = strokes(out@);
    let style = if selected {
        add_modifiers(base, REVERSED)
    } else if !row.enabled {
        add_modifiers(base, DIM)
    } else {
        base
    };
    out.push(Paint::Fill { area: row_area, style });
    assert(strokes(out@) =~= before.push(out@.last()@));
    let mut label = if selected {
        "\u{203a} ".to_owned()
    } else {
        "  ".to_owned()
    };
    label.append(row.text.as_str());
    let no_spans: Vec<StyleSpan> = Vec::new();
    assert(no_spans@ =~= Seq::<StyleSpan>::empty());
    render_line(label.as_str(), style, &no_spans, place, out);
    assert(strokes(out@) =~= before + overlay_row_strokes(
        *row,
        selected,
        style_parts(base),
        row_area,
        *place,
    ));
}

/// The cells that the contents of an overlay take.
pub open spec fn content_width(rows: Seq<OverlayRow>, title: Seq<char>) -> int
    decreases rows.len(),
{
    if rows.len() == 0 {
        shown_width(title) as int
    } else {
        greatest(content_width(rows.drop_last(), title), shown_width(rows.last().text@) + 2)
    }
}

/// Where an overlay goes in the body: centered, near the top, as large as its
/// contents and as the body allows, within the clip.
pub open spec fn overlay_area(overlay: OverlaySnapshot, body: Rect, clipped: Rect) -> Rect {
    let desired = coordinate(content_width(overlay.rows@, overlay.title@) + 4);
    let width = greatest(4, least(desired, body.width as int));
    let height = greatest(3, least(overlay.rows@.len() as int, body.height - 2) + 2);
    Rect::spec_new(
        coordinate(body.x + (body.width - width) / 2) as u16,
        coordinate(body.y + least(body.height - height, 2)) as u16,
        width as u16,
        height as u16,
    ).spec_intersection(clipped)
}

/// What is drawn for a row of an overlay in its area.
pub open spec fn listed_strokes(
    overlay: OverlaySnapshot,
    base: StyleParts,
    inner: Rect,
    clipped: Rect,
    first: int,
    cut: bool,
) -> spec_fn(int) -> Seq<Stroke> {
    |i: int|
        {
            let y = coordinate(inner.y + i) as u16;
            let row_area = Rect::spec_new(inner.x, y, inner.width, 1);
            overlay_row_strokes(
                overlay.rows@[first + i],
                overlay.shown_selection() == Some(first + i),
                base,
                if cut {
                    row_area.spec_intersection(clipped)
                } else {
                    row_area
                },
                Place { y, area: inner, clipped, left: 0 },
            )
        }
}

/// What is drawn for an overlay over the body.
pub open spec fn overlay_strokes(
    overlay: OverlaySnapshot,
    body: Rect,
    clipped: Rect,
    base: StyleParts,
) -> Seq<Stroke> {
    let area = overlay_area(overlay, body, clipped);
    if body.width < 4 || body.height < 3 || area.width < 4 || area.height < 3 {
        Seq::empty()
    } else {
        let inner = area.spec_inside_border();
        let count = overlay.rows@.len() as int;
        let first = window_start_of(count, overlay.shown_selection(), inner.height as int);
        seq![
            Stroke::Clear { area },
            Stroke::Frame { area, title: overlay.title@, style: base, border: no_parts() },
        ] + each(
            least(inner.height as int, count - first),
            listed_strokes(overlay, base, inner, clipped, first, true),
        )
    }
}

fn overlay_content_width(overlay: &OverlaySnapshot) -> (width: usize)
    ensures
        width == content_width(overlay.rows@, overlay.title@),
        width <= u16::MAX + 2,
{
    let rows = &overlay.rows;
    let mut width: usize = measure(overlay.title.as_str()) as usize;
    let mut i: usize = 0;
    assert(rows@.take(0) =~= Seq::<OverlayRow>::empty());
    while i < rows.len()
        invariant
            i <= rows@.len(),
            width == content_width(rows@.take(i as int), overlay.title@),
            width <= u16::MAX + 2,
        decreases rows@.len() - i,
    {
        let row_width: usize = measure(rows[i].text.as_str()) as usize + 2;
        if width <= row_width {
            width = row_width;
        }
        i += 1;
        assert(rows@.take(i as int).drop_last() =~= rows@.take(i - 1));
    }
    assert(rows@.take(i as int) =~= rows@);
    width
}

fn place_overlay(overlay: &OverlaySnapshot, body: Rect, clipped: Rect) -> (area: Rect)
    requires
        body.width >= 4,
        body.height >= 3,
    ensures
        area == overlay_area(*overlay, body, clipped),
{
    let desired: u16 = coordinate_or(overlay_content_width(overlay) + 4, u16::MAX);
    let width: u16 = if desired < 4 {
        4
    } else if desired <= body.width {
        desired
    } else {
        body.width
    };
    let rows: usize = at_most(overlay.rows.len(), (body.height - 2) as usize);
    let height: u16 = if rows == 0 {
        3
    } else {
        rows as u16 + 2
    };
    let x: u16 = body.x.saturating_add((body.width - width) / 2);
    let below: u16 = body.height - height;
    let y: u16 = body.y.saturating_add(
        if below <= 2 {
            below
        } else {
            2
        },
    );
    Rect::new(x, y, width, height).intersection(clipped)
}

/// Appends the rows of an overlay from `first` on.
fn render_rows(
    overlay: &OverlaySnapshot,
    base: Style,
    inner: Rect,
    clipped: Rect,
    first: usize,
    cut: bool,
    out: &mut Vec<Paint>,
)
    requires
        first <= overlay.rows@.len(),
    ensures
        strokes(final(out)@) == strokes(old(out)@) + each(
            least(inner.height as int, overlay.rows@.len() - first),
            listed_strokes(
                *overlay,
                style_parts(base),
                inner,
                clipped,
                first as int,
                cut,
            ),
        ),
{
    let selected = overlay.selection();
    let total: usize = overlay.rows.len();
    let count: usize = at_most(inner.height as usize, total - first);
    let ghost before = strokes(out@);
    let ghost of = listed_strokes(
        *overlay,
        style_parts(base),
        inner,
        clipped,
        first as int,
        cut,
    );
    let mut i: usize = 0;
    assert(before + each(0, of) =~= before);
    while i < count
        invariant
            i <= count <= inner.height,
            first + count <= total == overlay.rows@.len(),
            match overlay.shown_selection() {
                Some(index) => selected is Some && selected->0 == index,
                None => selected is None,
            },
            of == listed_strokes(
                *overlay,
                style_parts(base),
                inner,
                clipped,
                first as int,
                cut,
            ),
            strokes(out@) == before + each(i as int, of),
        decreases count - i,
    {
        let ghost here = strokes(out@);
        let y: u16 = inner.y.saturating_add(i as u16);
        let row_area = Rect::new(inner.x, y, inner.width, 1);
        let row_area = if cut {
            row_area.intersection(clipped)
        } else {
            row_area
        };
        let is_selected = match selected {
            Some(index) => index == first + i,
            None => false,
        };
        let place = Place { y, area: inner, clipped, left: 0 };
        render_overlay_row(&overlay.rows[first + i], is_selected, base, row_area, &place, out);
        assert(strokes(out@) =~= here + of(i as int));
        i += 1;
        assert(strokes(out@) =~= before + each(i as int, of));
    }
}

fn render_overlay(
    overlay: &OverlaySnapshot,
    body: Rect,
    clipped: Rect,
    base_style: Style,
    out: &mut Vec<Paint>,
)
    ensures
        strokes(final(out)@) == strokes(old(out)@) + overlay_strokes(
            *overlay,
            body,
            clipped,
            style_parts(base_style),
        ),
{
    let ghost before = strokes(out@);
    let ghost base = style_parts(base_style);
    if body.width < 4 || body.height < 3 {
        assert(strokes(out@) =~= before + overlay_strokes(*overlay, body, clipped, base));
        return ;
    }
    let area = place_overlay(overlay, body, clipped);
    if area.width < 4 || area.height < 3 {
        assert(strokes(out@) =~= before + overlay_strokes(*overlay, body, clipped, base));
        return ;
    }
    out.push(Paint::Clear { area });
    out.push(
        Paint::Frame {
            area,
            title: overlay.title.clone(),
            style: base_style,
            border: plain_style(),
        },
    );
    let ghost frame = seq![
        Stroke::Clear { area },
        Stroke::Frame { area, title: overlay.title@, style: base, border: no_parts() },
    ];
    assert(strokes(out@) =~= before + frame);
    let inner = area.inside_border();
    let first: usize = window_start(
        overlay.rows.len(),
        overlay.selection(),
        inner.height as usize,
    );
    render_rows(overlay, base_style, inner, clipped, first, true, out);
    assert(strokes(out@) =~= before + overlay_strokes(*overlay, body, clipped, base));
}

/// Draws an [`OverlaySnapshot`] as a dock of its own instead of over the
/// editor. What it is given is windowed already.
pub struct OverlayPanelWidget<'a> {
    snapshot: &'a OverlaySnapshot,
    focused: bool,
}

/// What is drawn for a panel in an area.
pub open spec fn panel_strokes(panel: OverlaySnapshot, focused: bool, area: Rect) -> Seq<Stroke> {
    if area.width < 3 || area.height < 3 {
        Seq::empty()
    } else {
        let inner = area.spec_inside_border();
        let border = with_modifiers(
            no_parts(),
            if focused {
                BOLD
            } else {
                DIM
            },
        );
        seq![
            Stroke::Clear { area },
            Stroke::Frame { area, title: panel.title@, style: no_parts(), border },
        ] + each(
            least(inner.height as int, panel.rows@.len() as int),
            listed_strokes(panel, no_parts(), inner, inner, 0, false),
        )
    }
}

/// The rows that a panel of so many rows draws are rows of a buffer, and the
/// panel does not start left of it.
pub open spec fn panel_fits(area: Rect, bounds: Rect, count: int) -> bool {
    let inner = area.spec_inside_border();
    let drawn = least(inner.height as int, count);
    area.width < 3 || area.height < 3 || drawn == 0 || bounds.x <= inner.x && bounds.y <= inner.y
        && inner.y + drawn <= bounds.spec_bottom()
}

proof fn lemma_panel_fits(panel: OverlaySnapshot, focused: bool, area: Rect, bounds: Rect)
    requires
        panel_fits(area, bounds, panel.rows@.len() as int),
    ensures
        all_paintable(bounds, panel_strokes(panel, focused, area)),
{
    if area.width >= 3 && area.height >= 3 {
        let inner = area.spec_inside_border();
        let anywhere = |x: int, y: int| true;
        let count = least(inner.height as int, panel.rows@.len() as int);
        let of = listed_strokes(panel, no_parts(), inner, inner, 0, false);
        if count > 0 {
            lemma_listed_keep(panel, no_parts(), inner, inner, 0, false, count, bounds, anywhere);
        }
        let frame = panel_strokes(panel, focused, area).take(2);
        assert(panel_strokes(panel, focused, area) =~= frame + each(count, of));
        assert(keeps_to(bounds, anywhere, frame));
        lemma_keeps_add(bounds, anywhere, frame, each(count, of));
    }
}

impl<'a> OverlayPanelWidget<'a> {
    /// What the widget draws.
    pub closed spec fn contents(&self) -> (OverlaySnapshot, bool) {
        (*self.snapshot, self.focused)
    }

    pub fn new(snapshot: &'a OverlaySnapshot, focused: bool) -> (widget: Self)
        ensures
            widget.contents() == (*snapshot, focused),
    {
        OverlayPanelWidget { snapshot, focused }
    }

    /// The row of a panel under a cell, counted from the first one shown.
    pub fn row_at(area: Rect, position: Position) -> (row: Option<usize>)
        ensures
            row == (if area.spec_inside_border().holds(position.x as int, position.y as int) {
                Some((position.y - area.spec_inside_border().y) as usize)
            } else {
                None
            }),
    {
        let inner = area.inside_border();
        if inner.contains(position) {
            Some((position.y - inner.y) as usize)
        } else {
            None
        }
    }

    /// The number of rows that a panel shows.
    pub fn row_budget(area: Rect) -> (rows: usize)
        ensures
            rows == above_zero(area.height - 2),
    {
        area.inside_border().height as usize
    }

    /// Whether the rows that are drawn have a place on a buffer.
    pub fn fits(&self, area: Rect, bounds: Rect) -> (result: bool)
        ensures
            result == panel_fits(area, bounds, self.contents().0.rows@.len() as int),
    {
        let inner = area.inside_border();
        let drawn: usize = at_most(inner.height as usize, self.snapshot.rows.len());
        area.width < 3 || area.height < 3 || drawn == 0 || bounds.x <= inner.x && bounds.y
            <= inner.y && inner.y as usize + drawn <= bounds.bottom() as usize
    }

    /// Draws the panel.
    pub fn render(&self, area: Rect, buffer: &mut Buffer)
        requires
            panel_fits(
                area,
                buffer_area(*old(buffer)),
                self.contents().0.rows@.len() as int,
            ),
        ensures
            buffer_area(*final(buffer)) == buffer_area(*old(buffer)),
            buffer_cells(*final(buffer)) == drawn(
                buffer_cells(*old(buffer)),
                buffer_area(*old(buffer)),
                panel_strokes(self.contents().0, self.contents().1, area),
            ),
    {
        let mut out: Vec<Paint> = Vec::new();
        if area.width >= 3 && area.height >= 3 {
            out.push(Paint::Clear { area });
            let border = add_modifiers(
                plain_style(),
                if self.focused {
                    BOLD
                } else {
                    DIM
                },
            );
            out.push(
                Paint::Frame {
                    area,
                    title: self.snapshot.title.clone(),
                    style: plain_style(),
                    border,
                },
            );
            let ghost frame = seq![
                Stroke::Clear { area },
                Stroke::Frame {
                    area,
                    title: self.snapshot.title@,
                    style: no_parts(),
                    border: style_parts(border),
                },
            ];
            assert(strokes(out@) =~= frame);
            let inner = area.inside_border();
            render_rows(self.snapshot, plain_style(), inner, inner, 0, false, &mut out);
        }
        proof {
            assert(strokes(out@) =~= panel_strokes(*self.snapshot, self.focused, area));
            lemma_panel_fits(*self.snapshot, self.focused, area, buffer_area(*buffer));
        }
        paint(buffer, &out);
    }
}

proof fn lemma_listed_keep(
    overlay: OverlaySnapshot,
    base: StyleParts,
    inner: Rect,
    clipped: Rect,
    first: int,
    cut: bool,
    count: int,
    bounds: Rect,
    reach: spec_fn(int, int) -> bool,
)
    requires
        bounds.x <= clipped.x,
        forall|i: int|
            0 <= i < count && clipped.y <= #[trigger] coordinate(inner.y + i)
                < clipped.spec_bottom() ==> bounds.y <= coordinate(inner.y + i)
                < bounds.spec_bottom(),
        forall|x: int, y: int| #[trigger] reached(clipped, inner, bounds, x, y) ==> reach(x, y),
        forall|x: int, y: int| !cut || #[trigger] clipped.holds(x, y) ==> reach(x, y),
    ensures
        keeps_to(
            bounds,
            reach,
            each(count, listed_strokes(overlay, base, inner, clipped, first, cut)),
        ),
{
    let of = listed_strokes(overlay, base, inner, clipped, first, cut);
    assert forall|i: int| 0 <= i < count implies keeps_to(bounds, reach, #[trigger] of(i)) by {
        let row = overlay.rows@[first + i];
        let selected = overlay.shown_selection() == Some(first + i);
        let y = coordinate(inner.y + i) as u16;
        let style = row_style(base, row, selected);
        let place = Place { y, area: inner, clipped, left: 0 };
        lemma_line_keeps(row_label(row, selected), style, Seq::empty(), place, bounds, reach);
        let row_area = Rect::spec_new(inner.x, y, inner.width, 1);
        let filled = if cut {
            row_area.spec_intersection(clipped)
        } else {
            row_area
        };
        let fill = seq![Stroke::Fill { area: filled, style }];
        assert forall|x: int, y: int| #[trigger] touches(bounds, fill[0], x, y) implies reach(
            x,
            y,
        ) by {
            intersection_holds_the_shared_cells(row_area, clipped, x, y);
            assert(!cut || clipped.holds(x, y));
        }
        lemma_keeps_add(
            bounds,
            reach,
            fill,
            line_strokes(row_label(row, selected), style, Seq::empty(), place),
        );
    }
    lemma_each_keeps(bounds, reach, count, of);
}

/// Where the parts of the editor go, within a buffer.
pub struct Layout {
    pub clipped: Rect,
    pub body: Rect,
    pub gutter: Rect,
    pub text: Rect,
}

/// The parts of an area: the body above the status row, with the gutter at
/// its left and the text behind it.
pub open spec fn layout_of(snapshot: RenderSnapshot, area: Rect, buffer: Rect) -> Layout {
    let height = above_zero(area.height - 1) as u16;
    Layout {
        clipped: area.spec_intersection(buffer),
        body: Rect::spec_new(area.x, area.y, area.width, height),
        gutter: Rect::spec_new(area.x, area.y, snapshot.gutter(area) as u16, height),
        text: Rect { height, ..snapshot.text_rect(area) },
    }
}

/// A line number, aligned to the right, and a blank.
pub open spec fn number_label(number: u32, digits: int) -> Seq<char> {
    let shown = decimal(number as nat);
    Seq::new(above_zero(digits - shown.len()) as nat, |i: int| ' ') + shown + seq![' ']
}

/// The styled parts of a captured row.
pub open spec fn row_spans(snapshot: RenderSnapshot, index: int) -> Seq<StyleSpan> {
    if index < snapshot.line_styles@.len() {
        snapshot.line_styles@[index]@
    } else {
        Seq::empty()
    }
}

/// What is drawn in the gutter of a captured row.
pub open spec fn gutter_strokes(
    snapshot: RenderSnapshot,
    layout: Layout,
    index: int,
    y: u16,
) -> Seq<Stroke> {
    if layout.gutter.width > 0 && index < snapshot.line_numbers@.len()
        && snapshot.line_numbers@[index] is Some {
        line_strokes(
            number_label(snapshot.line_numbers@[index]->0, snapshot.digits()),
            style_parts(snapshot.gutter_style),
            Seq::empty(),
            Place {
                y,
                area: layout.gutter,
                clipped: layout.gutter.spec_intersection(layout.clipped),
                left: 0,
            },
        )
    } else {
        Seq::empty()
    }
}

/// What is drawn for the document row on the screen row `y`: the line number,
/// the text, then highlights, decorations, annotations, and selections, each
/// on top of the one before.
pub open spec fn body_strokes(
    snapshot: RenderSnapshot,
    area: Rect,
    layout: Layout,
    y: u16,
) -> Seq<Stroke> {
    let row = word(snapshot.viewport.top_row + above_zero(y - area.y));
    match snapshot.local_row(row) {
        Some(index) => {
            let line = snapshot.lines@[index]@;
            let place = Place {
                y,
                area: layout.text,
                clipped: layout.text.spec_intersection(layout.clipped),
                left: snapshot.viewport.left_column,
            };
            gutter_strokes(snapshot, layout, index, y) + line_strokes(
                line,
                style_parts(snapshot.text_style),
                row_spans(snapshot, index),
                place,
            ) + each(
                snapshot.background_ranges@.len() as int,
                background_strokes(
                    snapshot.background_ranges@,
                    row,
                    shown_width(line) as int,
                    place,
                ),
            ) + each(
                snapshot.cell_decorations@.len() as int,
                decoration_strokes(snapshot.cell_decorations@, row, place),
            ) + each(
                snapshot.inline_annotations@.len() as int,
                annotation_strokes(snapshot.inline_annotations@, row, place),
            ) + each(
                snapshot.selections@.len() as int,
                selection_strokes(snapshot.selections@, row, shown_width(line) as int, place),
            )
        },
        None => Seq::empty(),
    }
}

/// What is drawn for the rows of the body, from `top` on.
pub open spec fn rows_strokes(
    snapshot: RenderSnapshot,
    area: Rect,
    layout: Layout,
    top: int,
) -> spec_fn(int) -> Seq<Stroke> {
    |i: int| body_strokes(snapshot, area, layout, (top + i) as u16)
}

/// What is drawn for the status row.
pub open spec fn status_strokes(snapshot: RenderSnapshot, area: Rect, clipped: Rect) -> Seq<Stroke> {
    let y = coordinate(area.y + (area.height - 1)) as u16;
    let row = Rect::spec_new(area.x, y, area.width, 1).spec_intersection(clipped);
    let style = with_modifiers(style_parts(snapshot.text_style), REVERSED);
    if area.height == 0 || row.spec_is_empty() {
        Seq::empty()
    } else {
        seq![Stroke::Fill { area: row, style }] + line_strokes(
            snapshot.status_line(),
            style,
            Seq::empty(),
            Place { y, area, clipped, left: 0 },
        )
    }
}

/// What is drawn for the overlay of a snapshot, if it has one.
pub open spec fn overlaid_strokes(snapshot: RenderSnapshot, body: Rect, clipped: Rect) -> Seq<
    Stroke,
> {
    match snapshot.overlay {
        Some(overlay) => overlay_strokes(
            overlay,
            body,
            clipped,
            style_parts(snapshot.text_style),
        ),
        None => Seq::empty(),
    }
}

/// What is drawn for a snapshot in an area of a buffer.
pub open spec fn snapshot_strokes(snapshot: RenderSnapshot, area: Rect, buffer: Rect) -> Seq<
    Stroke,
> {
    let layout = layout_of(snapshot, area, buffer);
    let clipped = layout.clipped;
    let body = layout.body.spec_intersection(clipped);
    let text = layout.text.spec_intersection(clipped);
    if clipped.spec_is_empty() {
        Seq::empty()
    } else {
        seq![
            Stroke::Clear { area: clipped },
            Stroke::Fill { area: body, style: style_parts(snapshot.text_style) },
            Stroke::Fill {
                area: layout.gutter.spec_intersection(clipped),
                style: style_parts(snapshot.gutter_style),
            },
        ] + each(
            body.spec_bottom() - body.y,
            rows_strokes(snapshot, area, layout, body.y as int),
        ) + each(
            snapshot.secondary_cursors@.len() as int,
            cursor_strokes(snapshot, layout.text, text),
        ) + overlaid_strokes(snapshot, layout.body, clipped) + status_strokes(
            snapshot,
            area,
            clipped,
        )
    }
}

fn number_text(number: u32, digits: usize) -> (label: String)
    ensures
        label@ == number_label(number, digits as int),
{
    let shown = decimal_string(number as u64);
    let count: usize = shown.as_str().unicode_len();
    let padding: usize = digits.saturating_sub(count);
    let mut label = String::new();
    let mut i: usize = 0;
    while i < padding
        invariant
            i <= padding,
            label@ == Seq::new(i as nat, |k: int| ' '),
        decreases padding - i,
    {
        label.push(' ');
        i += 1;
        assert(label@ =~= Seq::new(i as nat, |k: int| ' '));
    }
    label.append(shown.as_str());
    label.push(' ');
    assert(label@ =~= number_label(number, digits as int));
    label
}

fn render_body_row(
    snapshot: &RenderSnapshot,
    area: Rect,
    layout: &Layout,
    digits: usize,
    y: u16,
    out: &mut Vec<Paint>,
)
    requires
        digits == snapshot.digits(),
    ensures
        strokes(final(out)@) == strokes(old(out)@) + body_strokes(*snapshot, area, *layout, y),
{
    let ghost before = strokes(out@);
    let screen_row: usize = y.saturating_sub(area.y) as usize;
    let row: usize = snapshot.viewport.top_row.saturating_add(screen_row);
    let index: usize = match snapshot.local_row_index(row) {
        Some(index) => index,
        None => {
            assert(strokes(out@) =~= before + body_strokes(*snapshot, area, *layout, y));
            return ;
        },
    };
    let no_spans: Vec<StyleSpan> = Vec::new();
    assert(no_spans@ =~= Seq::<StyleSpan>::empty());
    if layout.gutter.width > 0 && index < snapshot.line_numbers.len() {
        if let Some(number) = snapshot.line_numbers[index] {
            let place = Place {
                y,
                area: layout.gutter,
                clipped: layout.gutter.intersection(layout.clipped),
                left: 0,
            };
            let label = number_text(number, digits);
            render_line(label.as_str(), snapshot.gutter_style, &no_spans, &place, out);
        }
    }
    assert(strokes(out@) =~= before + gutter_strokes(*snapshot, *layout, index as int, y));
    let line = snapshot.lines[index].as_str();
    let place = Place {
        y,
        area: layout.text,
        clipped: layout.text.intersection(layout.clipped),
        left: snapshot.viewport.left_column,
    };
    let spans = if index < snapshot.line_styles.len() {
        &snapshot.line_styles[index]
    } else {
        &no_spans
    };
    let ghost width = shown_width(line@) as int;
    let ghost mut list = gutter_strokes(*snapshot, *layout, index as int, y);
    let ghost mut more = line_strokes(
        line@,
        style_parts(snapshot.text_style),
        row_spans(*snapshot, index as int),
        place,
    );
    render_line(line, snapshot.text_style, spans, &place, out);
    proof {
        lemma_append(before, list, more);
        list = list + more;
        more = each(
            snapshot.background_ranges@.len() as int,
            background_strokes(snapshot.background_ranges@, row as int, width, place),
        );
    }
    render_background_row(snapshot, row, line, &place, out);
    proof {
        lemma_append(before, list, more);
        list = list + more;
        more = each(
            snapshot.cell_decorations@.len() as int,
            decoration_strokes(snapshot.cell_decorations@, row as int, place),
        );
    }
    render_cell_decorations(snapshot, row, &place, out);
    proof {
        lemma_append(before, list, more);
        list = list + more;
        more = each(
            snapshot.inline_annotations@.len() as int,
            annotation_strokes(snapshot.inline_annotations@, row as int, place),
        );
    }
    render_inline_annotations(snapshot, row, &place, out);
    proof {
        lemma_append(before, list, more);
        list = list + more;
        more = each(
            snapshot.selections@.len() as int,
            selection_strokes(snapshot.selections@, row as int, width, place),
        );
    }
    render_selection_row(snapshot, row, line, &place, out);
    proof {
        lemma_append(before, list, more);
    }
}

fn compute_layout(snapshot: &RenderSnapshot, area: Rect, bounds: Rect) -> (layout: Layout)
    ensures
        layout == layout_of(*snapshot, area, bounds),
{
    let widget = EditorWidget::new(snapshot);
    let height: u16 = area.height.saturating_sub(1);
    let mut text = widget.text_area(area);
    text.height = height;
    Layout {
        clipped: area.intersection(bounds),
        body: Rect::new(area.x, area.y, area.width, height),
        gutter: Rect::new(area.x, area.y, widget.gutter_width(area), height),
        text,
    }
}

/// The drawing of a snapshot in an area of a buffer with the given bounds.
pub fn snapshot_paints(snapshot: &RenderSnapshot, area: Rect, bounds: Rect) -> (out: Vec<Paint>)
    ensures
        strokes(out@) == snapshot_strokes(*snapshot, area, bounds),
{
    let mut out: Vec<Paint> = Vec::new();
    let layout = compute_layout(snapshot, area, bounds);
    let clipped = layout.clipped;
    if clipped.is_empty() {
        assert(strokes(out@) =~= Seq::<Stroke>::empty());
        return out;
    }
    let body = layout.body.intersection(clipped);
    let text = layout.text.intersection(clipped);
    let digits: usize = EditorWidget::new(snapshot).line_number_digits();
    out.push(Paint::Clear { area: clipped });
    out.push(Paint::Fill { area: body, style: snapshot.text_style });
    out.push(
        Paint::Fill { area: layout.gutter.intersection(clipped), style: snapshot.gutter_style },
    );
    let ghost base = seq![
        Stroke::Clear { area: clipped },
        Stroke::Fill { area: body, style: style_parts(snapshot.text_style) },
        Stroke::Fill {
            area: layout.gutter.spec_intersection(clipped),
            style: style_parts(snapshot.gutter_style),
        },
    ];
    assert(strokes(out@) =~= base);
    let bottom: u16 = body.bottom();
    let mut y: u16 = body.y;
    let ghost of = rows_strokes(*snapshot, area, layout, body.y as int);
    assert(base + each(0, of) =~= base);
    while y < bottom
        invariant
            bottom == body.spec_bottom(),
            body.y <= y,
            bottom >= body.y ==> y <= bottom,
            digits == snapshot.digits(),
            of == rows_strokes(*snapshot, area, layout, body.y as int),
            strokes(out@) == base + each(y - body.y, of),
        decreases bottom - y,
    {
        let ghost here = strokes(out@);
        render_body_row(snapshot, area, &layout, digits, y, &mut out);
        assert(of(y - body.y) == body_strokes(*snapshot, area, layout, y));
        y += 1;
        assert(strokes(out@) =~= base + each(y - body.y, of));
    }
    render_secondary_cursors(snapshot, layout.text, text, &mut out);
    let ghost here = strokes(out@);
    if let Some(overlay) = &snapshot.overlay {
        render_overlay(overlay, layout.body, clipped, snapshot.text_style, &mut out);
    }
    assert(strokes(out@) =~= here + overlaid_strokes(*snapshot, layout.body, clipped));
    render_status(snapshot, area, clipped, &mut out);
    assert(strokes(out@) =~= snapshot_strokes(*snapshot, area, bounds));
    out
}

fn render_status(snapshot: &RenderSnapshot, area: Rect, clipped: Rect, out: &mut Vec<Paint>)
    ensures
        strokes(final(out)@) == strokes(old(out)@) + status_strokes(*snapshot, area, clipped),
{
    let ghost before = strokes(out@);
    if area.height == 0 {
        assert(strokes(out@) =~= before + status_strokes(*snapshot, area, clipped));
        return ;
    }
    let y: u16 = area.y.saturating_add(area.height - 1);
    let row = Rect::new(area.x, y, area.width, 1).intersection(clipped);
    if row.is_empty() {
        assert(strokes(out@) =~= before + status_strokes(*snapshot, area, clipped));
        return ;
    }
    let style = add_modifiers(snapshot.text_style, REVERSED);
    out.push(Paint::Fill { area: row, style });
    assert(strokes(out@) =~= before.push(out@.last()@));
    let text = EditorWidget::new(snapshot).status_text();
    let no_spans: Vec<StyleSpan> = Vec::new();
    assert(no_spans@ =~= Seq::<StyleSpan>::empty());
    render_line(text.as_str(), style, &no_spans, &Place { y, area, clipped, left: 0 }, out);
    assert(strokes(out@) =~= before + status_strokes(*snapshot, area, clipped));
}

/// The cells of a rectangle.
pub open spec fn cells_of(area: Rect) -> spec_fn(int, int) -> bool {
    |x: int, y: int| area.holds(x, y)
}

/// A line in a part of an area keeps to the cells that the area shares with
/// the buffer.
proof fn lemma_part_reached(part: Rect, area: Rect, bounds: Rect)
    requires
        area.x <= part.x,
        part.x + part.width <= area.x + area.width,
    ensures
        ({
            let clip = area.spec_intersection(bounds);
            let clipped = part.spec_intersection(clip);
            &&& starts_within(clipped, bounds)
            &&& forall|x: int, y: int| #[trigger]
                reached(clipped, part, bounds, x, y) ==> cells_of(clip)(x, y)
        }),
{
    let clip = area.spec_intersection(bounds);
    let clipped = part.spec_intersection(clip);
    assert forall|x: int, y: int| #[trigger] reached(clipped, part, bounds, x, y) implies cells_of(
        clip,
    )(x, y) by {
        intersection_holds_the_shared_cells(area, bounds, x, y);
    }
}

/// The visible cells of a range lie in the clip.
proof fn lemma_range_clipped(
    range: SelectionRange,
    row: int,
    line_width: int,
    place: Place,
    clip: Rect,
    x: int,
    y: int,
)
    requires
        place.clipped == place.area.spec_intersection(clip),
        clip.y <= place.y < clip.spec_bottom(),
        visible_range(range, row, line_width, place) is Some,
        visible_range(range, row, line_width, place)->0.holds(x, y),
    ensures
        clip.holds(x, y),
{
}

proof fn lemma_backgrounds_keep(
    list: Seq<BackgroundRange>,
    row: int,
    line_width: int,
    place: Place,
    clip: Rect,
    bounds: Rect,
)
    requires
        place.clipped == place.area.spec_intersection(clip),
        clip.y <= place.y < clip.spec_bottom(),
    ensures
        keeps_to(
            bounds,
            cells_of(clip),
            each(list.len() as int, background_strokes(list, row, line_width, place)),
        ),
{
    let of = background_strokes(list, row, line_width, place);
    assert forall|i: int| 0 <= i < list.len() implies keeps_to(
        bounds,
        cells_of(clip),
        #[trigger] of(i),
    ) by {
        if of(i).len() > 0 {
            assert forall|x: int, y: int| #[trigger]
                touches(bounds, of(i)[0], x, y) implies cells_of(clip)(x, y) by {
                lemma_range_clipped(list[i].range, row, line_width, place, clip, x, y);
            }
        }
    }
    lemma_each_keeps(bounds, cells_of(clip), list.len() as int, of);
}

proof fn lemma_selections_keep(
    list: Seq<SelectionRange>,
    row: int,
    line_width: int,
    place: Place,
    clip: Rect,
    bounds: Rect,
)
    requires
        place.clipped == place.area.spec_intersection(clip),
        clip.y <= place.y < clip.spec_bottom(),
    ensures
        keeps_to(
            bounds,
            cells_of(clip),
            each(list.len() as int, selection_strokes(list, row, line_width, place)),
        ),
{
    let of = selection_strokes(list, row, line_width, place);
    assert forall|i: int| 0 <= i < list.len() implies keeps_to(
        bounds,
        cells_of(clip),
        #[trigger] of(i),
    ) by {
        if of(i).len() > 0 {
            assert forall|x: int, y: int| #[trigger]
                touches(bounds, of(i)[0], x, y) implies cells_of(clip)(x, y) by {
                lemma_range_clipped(list[i], row, line_width, place, clip, x, y);
            }
        }
    }
    lemma_each_keeps(bounds, cells_of(clip), list.len() as int, of);
}

proof fn lemma_decorations_keep(
    list: Seq<CellDecoration>,
    row: int,
    place: Place,
    clip: Rect,
    bounds: Rect,
)
    requires
        place.clipped == place.area.spec_intersection(clip),
    ensures
        keeps_to(
            bounds,
            cells_of(clip),
            each(list.len() as int, decoration_strokes(list, row, place)),
        ),
{
    let of = decoration_strokes(list, row, place);
    assert forall|i: int| 0 <= i < list.len() implies keeps_to(
        bounds,
        cells_of(clip),
        #[trigger] of(i),
    ) by {
        if of(i).len() > 0 {
            assert forall|x: int, y: int| #[trigger]
                touches(bounds, of(i)[0], x, y) implies cells_of(clip)(x, y) by {
                intersection_holds_the_shared_cells(place.area, clip, x, y);
            }
        }
    }
    lemma_each_keeps(bounds, cells_of(clip), list.len() as int, of);
}

proof fn lemma_annotations_keep(
    list: Seq<InlineAnnotation>,
    row: int,
    place: Place,
    bounds: Rect,
    reach: spec_fn(int, int) -> bool,
)
    requires
        starts_within(place.clipped, bounds),
        forall|x: int, y: int|
            #[trigger] reached(place.clipped, place.area, bounds, x, y) ==> reach(x, y),
    ensures
        keeps_to(
            bounds,
            reach,
            each(list.len() as int, annotation_strokes(list, row, place)),
        ),
{
    let of = annotation_strokes(list, row, place);
    assert forall|i: int| 0 <= i < list.len() implies keeps_to(
        bounds,
        reach,
        #[trigger] of(i),
    ) by {
        let note = list[i];
        if let Some(at) = annotation_place(note, row, place) {
            assert forall|x: int, y: int| #[trigger]
                reached(at.clipped, at.area, bounds, x, y) implies reach(x, y) by {
                assert(reached(place.clipped, place.area, bounds, x, y));
            }
            lemma_line_keeps(
                note.text@,
                style_parts(note.style),
                Seq::empty(),
                at,
                bounds,
                reach,
            );
        }
    }
    lemma_each_keeps(bounds, reach, list.len() as int, of);
}

proof fn lemma_cursors_keep(
    snapshot: RenderSnapshot,
    area: Rect,
    clip: Rect,
    bounds: Rect,
)
    ensures
        keeps_to(
            bounds,
            cells_of(clip),
            each(
                snapshot.secondary_cursors@.len() as int,
                cursor_strokes(snapshot, area, area.spec_intersection(clip)),
            ),
        ),
{
    let clipped = area.spec_intersection(clip);
    let of = cursor_strokes(snapshot, area, clipped);
    let count = snapshot.secondary_cursors@.len() as int;
    assert forall|i: int| 0 <= i < count implies keeps_to(
        bounds,
        cells_of(clip),
        #[trigger] of(i),
    ) by {
        if of(i).len() > 0 {
            assert forall|x: int, y: int| #[trigger]
                touches(bounds, of(i)[0], x, y) implies cells_of(clip)(x, y) by {
                let cursor = snapshot.secondary_cursors@[i];
                let column = area.x + (cursor.column - snapshot.viewport.left_column);
                let row = area.y + (cursor.row - snapshot.viewport.top_row);
                let cell = Rect::spec_new(column as u16, row as u16, 1, 1);
                intersection_holds_the_shared_cells(cell, clipped, x, y);
                intersection_holds_the_shared_cells(area, clip, x, y);
            }
        }
    }
    lemma_each_keeps(bounds, cells_of(clip), count, of);
}

#[verifier::spinoff_prover]
#[verifier::rlimit(30)]
proof fn lemma_body_row_keeps(snapshot: RenderSnapshot, area: Rect, bounds: Rect, y: u16)
    requires
        ({
            let clipped = area.spec_intersection(bounds);
            clipped.y <= y < clipped.spec_bottom()
        }),
    ensures
        keeps_to(
            bounds,
            cells_of(area.spec_intersection(bounds)),
            body_strokes(snapshot, area, layout_of(snapshot, area, bounds), y),
        ),
{
    let layout = layout_of(snapshot, area, bounds);
    let clip = layout.clipped;
    let reach = cells_of(clip);
    let row = word(snapshot.viewport.top_row + above_zero(y - area.y));
    if let Some(index) = snapshot.local_row(row) {
        let line = snapshot.lines@[index]@;
        let width = shown_width(line) as int;
        let clipped = layout.text.spec_intersection(clip);
        let place = Place { y, area: layout.text, clipped, left: snapshot.viewport.left_column };
        lemma_part_reached(layout.gutter, area, bounds);
        lemma_part_reached(layout.text, area, bounds);
        if layout.gutter.width > 0 && index < snapshot.line_numbers@.len()
            && snapshot.line_numbers@[index] is Some {
            lemma_line_keeps(
                number_label(snapshot.line_numbers@[index]->0, snapshot.digits()),
                style_parts(snapshot.gutter_style),
                Seq::empty(),
                Place {
                    y,
                    area: layout.gutter,
                    clipped: layout.gutter.spec_intersection(clip),
                    left: 0,
                },
                bounds,
                reach,
            );
        }
        let style = style_parts(snapshot.text_style);
        lemma_line_keeps(line, style, row_spans(snapshot, index), place, bounds, reach);
        let a = gutter_strokes(snapshot, layout, index, y);
        let b = line_strokes(line, style, row_spans(snapshot, index), place);
        lemma_keeps_add(bounds, reach, a, b);
        lemma_backgrounds_keep(snapshot.background_ranges@, row, width, place, clip, bounds);
        let backgrounds = background_strokes(snapshot.background_ranges@, row, width, place);
        let c = each(snapshot.background_ranges@.len() as int, backgrounds);
        lemma_keeps_add(bounds, reach, a + b, c);
        lemma_decorations_keep(snapshot.cell_decorations@, row, place, clip, bounds);
        let decorations = decoration_strokes(snapshot.cell_decorations@, row, place);
        let d = each(snapshot.cell_decorations@.len() as int, decorations);
        lemma_keeps_add(bounds, reach, a + b + c, d);
        lemma_annotations_keep(snapshot.inline_annotations@, row, place, bounds, reach);
        let notes = annotation_strokes(snapshot.inline_annotations@, row, place);
        let e = each(snapshot.inline_annotations@.len() as int, notes);
        lemma_keeps_add(bounds, reach, a + b + c + d, e);
        lemma_selections_keep(snapshot.selections@, row, width, place, clip, bounds);
        let selections = selection_strokes(snapshot.selections@, row, width, place);
        let f = each(snapshot.selections@.len() as int, selections);
        lemma_keeps_add(bounds, reach, a + b + c + d + e, f);
    }
}

proof fn lemma_status_keeps(snapshot: RenderSnapshot, area: Rect, bounds: Rect)
    ensures
        keeps_to(
            bounds,
            cells_of(area.spec_intersection(bounds)),
            status_strokes(snapshot, area, area.spec_intersection(bounds)),
        ),
{
    let clipped = area.spec_intersection(bounds);
    let reach = cells_of(clipped);
    let status = status_strokes(snapshot, area, clipped);
    if status.len() > 0 {
        let y = coordinate(area.y + (area.height - 1)) as u16;
        let row = Rect::spec_new(area.x, y, area.width, 1);
        let style = with_modifiers(style_parts(snapshot.text_style), REVERSED);
        let place = Place { y, area, clipped, left: 0 };
        let line = line_strokes(snapshot.status_line(), style, Seq::empty(), place);
        lemma_part_reached(area, area, bounds);
        assert(area.spec_intersection(clipped) == clipped);
        lemma_line_keeps(snapshot.status_line(), style, Seq::empty(), place, bounds, reach);
        assert(status =~= status.take(1) + line);
        assert forall|x: int, y: int| #[trigger] touches(bounds, status[0], x, y) implies reach(
            x,
            y,
        ) by {
            intersection_holds_the_shared_cells(row, clipped, x, y);
        }
        lemma_keeps_add(bounds, reach, status.take(1), line);
    }
}

/// Whatever the area, a buffer takes the drawing of a snapshot, and the drawing
/// keeps to the cells that the area and the buffer share.
pub proof fn drawings_keep_to_their_area(snapshot: RenderSnapshot, area: Rect, bounds: Rect)
    ensures
        keeps_to(
            bounds,
            cells_of(area.spec_intersection(bounds)),
            snapshot_strokes(snapshot, area, bounds),
        ),
        all_paintable(bounds, snapshot_strokes(snapshot, area, bounds)),
{
    let layout = layout_of(snapshot, area, bounds);
    let clipped = layout.clipped;
    let reach = cells_of(clipped);
    let body = layout.body.spec_intersection(clipped);
    let text = layout.text.spec_intersection(clipped);
    if !clipped.spec_is_empty() {
        let style = style_parts(snapshot.text_style);
        let a = seq![
            Stroke::Clear { area: clipped },
            Stroke::Fill { area: body, style },
            Stroke::Fill {
                area: layout.gutter.spec_intersection(clipped),
                style: style_parts(snapshot.gutter_style),
            },
        ];
        assert forall|k: int| 0 <= k < a.len() implies stays(bounds, reach, #[trigger] a[k]) by {
            assert forall|x: int, y: int| #[trigger] touches(bounds, a[k], x, y) implies reach(
                x,
                y,
            ) by {
                intersection_holds_the_shared_cells(layout.body, clipped, x, y);
                intersection_holds_the_shared_cells(layout.gutter, clipped, x, y);
            }
        }
        let rows = rows_strokes(snapshot, area, layout, body.y as int);
        let count = body.spec_bottom() - body.y;
        assert forall|i: int| 0 <= i < count implies keeps_to(
            bounds,
            reach,
            #[trigger] rows(i),
        ) by {
            lemma_body_row_keeps(snapshot, area, bounds, (body.y + i) as u16);
        }
        lemma_each_keeps(bounds, reach, count, rows);
        lemma_keeps_add(bounds, reach, a, each(count, rows));
        let cursors = cursor_strokes(snapshot, layout.text, text);
        let cursor_count = snapshot.secondary_cursors@.len() as int;
        lemma_cursors_keep(snapshot, layout.text, clipped, bounds);
        lemma_keeps_add(bounds, reach, a + each(count, rows), each(cursor_count, cursors));
        let over = overlaid_strokes(snapshot, layout.body, clipped);
        if let Some(overlay) = snapshot.overlay {
            lemma_overlay_keeps(overlay, layout.body, area, style, bounds);
        }
        lemma_keeps_add(
            bounds,
            reach,
            a + each(count, rows) + each(cursor_count, cursors),
            over,
        );
        lemma_status_keeps(snapshot, area, bounds);
        lemma_keeps_add(
            bounds,
            reach,
            a + each(count, rows) + each(cursor_count, cursors) + over,
            status_strokes(snapshot, area, clipped),
        );
    }
}

proof fn lemma_overlay_keeps(
    overlay: OverlaySnapshot,
    body: Rect,
    area: Rect,
    base: StyleParts,
    bounds: Rect,
)
    ensures
        keeps_to(
            bounds,
            cells_of(area.spec_intersection(bounds)),
            overlay_strokes(overlay, body, area.spec_intersection(bounds), base),
        ),
{
    let clipped = area.spec_intersection(bounds);
    let reach = cells_of(clipped);
    let over = overlay_area(overlay, body, clipped);
    if !(body.width < 4 || body.height < 3 || over.width < 4 || over.height < 3) {
        let inner = over.spec_inside_border();
        let count = overlay.rows@.len() as int;
        let first = window_start_of(count, overlay.shown_selection(), inner.height as int);
        let shown = least(inner.height as int, count - first);
        lemma_listed_keep(overlay, base, inner, clipped, first, true, shown, bounds, reach);
        lemma_keeps_add(
            bounds,
            reach,
            seq![
                Stroke::Clear { area: over },
                Stroke::Frame { area: over, title: overlay.title@, style: base, border: no_parts() },
            ],
            each(shown, listed_strokes(overlay, base, inner, clipped, first, true)),
        );
    }
}

/// Where a drawing keeps to some cells, it leaves the others alone.
proof fn lemma_other_cells_untouched(
    bounds: Rect,
    reach: spec_fn(int, int) -> bool,
    list: Seq<Stroke>,
    x: int,
    y: int,
)
    requires
        keeps_to(bounds, reach, list),
        !reach(x, y),
    ensures
        untouched(bounds, list, x, y),
{
    assert forall|i: int| 0 <= i < list.len() implies !touches(bounds, #[trigger] list[i], x, y) by {
        assert(stays(bounds, reach, list[i]));
    }
}

proof fn lemma_frame_forgets(
    snapshot: RenderSnapshot,
    area: Rect,
    bounds: Rect,
    first: Map<(int, int), Glyph>,
    second: Map<(int, int), Glyph>,
)
    requires
        first.dom() == second.dom(),
        forall|at: (int, int)|
            first.contains_key(at) && !area.spec_intersection(bounds).holds(at.0, at.1)
                ==> #[trigger] first[at] == second[at],
    ensures
        drawn(first, bounds, snapshot_strokes(snapshot, area, bounds)) == drawn(
            second,
            bounds,
            snapshot_strokes(snapshot, area, bounds),
        ),
{
    let list = snapshot_strokes(snapshot, area, bounds);
    let clipped = area.spec_intersection(bounds);
    if clipped.spec_is_empty() {
        assert(first =~= second);
    } else {
        assert(list[0] == (Stroke::Clear { area: clipped }));
        a_cleared_area_is_forgotten(first, second, bounds, list);
    }
}

/// A frame shows nothing of the one before: on two buffers of the same cells
/// that differ in the area alone, it leaves the same. An area off the buffer
/// leaves it as it was.
pub proof fn a_frame_forgets_the_one_before(
    snapshot: RenderSnapshot,
    area: Rect,
    bounds: Rect,
    first: Map<(int, int), Glyph>,
    second: Map<(int, int), Glyph>,
)
    requires
        first.dom() == second.dom(),
        forall|at: (int, int)| #[trigger] first.contains_key(at) ==> bounds.holds(at.0, at.1),
        forall|at: (int, int)|
            first.contains_key(at) && !area.holds(at.0, at.1) ==> #[trigger] first[at]
                == second[at],
    ensures
        drawn(first, bounds, snapshot_strokes(snapshot, area, bounds)) == drawn(
            second,
            bounds,
            snapshot_strokes(snapshot, area, bounds),
        ),
        area.spec_intersection(bounds).spec_is_empty() ==> drawn(
            first,
            bounds,
            snapshot_strokes(snapshot, area, bounds),
        ) == first,
{
    assert forall|at: (int, int)|
        first.contains_key(at) && !area.spec_intersection(bounds).holds(
            at.0,
            at.1,
        ) implies #[trigger] first[at] == second[at] by {
        intersection_holds_the_shared_cells(area, bounds, at.0, at.1);
    }
    lemma_frame_forgets(snapshot, area, bounds, first, second);
}

/// Whether nothing is drawn over the rows of the body: there is no overlay, and
/// no cursor but the terminal's own.
pub open spec fn bare(snapshot: RenderSnapshot) -> bool {
    snapshot.overlay is None && snapshot.secondary_cursors@.len() == 0
}

/// What is drawn before the row of the body on the screen row `y`.
pub open spec fn strokes_above(snapshot: RenderSnapshot, area: Rect, bounds: Rect, y: int) -> Seq<
    Stroke,
> {
    let layout = layout_of(snapshot, area, bounds);
    let body = layout.body.spec_intersection(layout.clipped);
    seq![
        Stroke::Clear { area: layout.clipped },
        Stroke::Fill { area: body, style: style_parts(snapshot.text_style) },
        Stroke::Fill {
            area: layout.gutter.spec_intersection(layout.clipped),
            style: style_parts(snapshot.gutter_style),
        },
    ] + each(y - body.y, rows_strokes(snapshot, area, layout, body.y as int))
}

proof fn lemma_untouched_add(bounds: Rect, a: Seq<Stroke>, b: Seq<Stroke>, x: int, y: int)
    requires
        untouched(bounds, a, x, y),
        untouched(bounds, b, x, y),
    ensures
        untouched(bounds, a + b, x, y),
{
    assert forall|i: int| 0 <= i < (a + b).len() implies !touches(
        bounds,
        #[trigger] (a + b)[i],
        x,
        y,
    ) by {
        if i < a.len() {
            assert((a + b)[i] == a[i]);
        } else {
            assert((a + b)[i] == b[i - a.len()]);
        }
    }
}

/// The items of a list behind some leave a cell alone that none of them touches.
proof fn lemma_rest_untouched(
    bounds: Rect,
    n: int,
    m: int,
    of: spec_fn(int) -> Seq<Stroke>,
    x: int,
    y: int,
)
    requires
        0 <= m <= n,
        forall|j: int| m <= j < n ==> untouched(bounds, #[trigger] of(j), x, y),
    ensures
        each(m, of).len() <= each(n, of).len(),
        each(n, of).take(each(m, of).len() as int) == each(m, of),
        untouched(bounds, each(n, of).skip(each(m, of).len() as int), x, y),
    decreases n - m,
{
    let front = each(m, of);
    if m == n {
        assert(each(n, of).take(front.len() as int) =~= front);
        assert(each(n, of).skip(front.len() as int) =~= Seq::<Stroke>::empty());
    } else {
        lemma_rest_untouched(bounds, n - 1, m, of, x, y);
        let before = each(n - 1, of);
        let all = each(n, of);
        assert(all.take(front.len() as int) =~= before.take(front.len() as int));
        assert(all.skip(front.len() as int) =~= before.skip(front.len() as int) + of(n - 1));
        lemma_untouched_add(bounds, before.skip(front.len() as int), of(n - 1), x, y);
    }
}

proof fn lemma_line_untouched(
    line: Seq<char>,
    style: StyleParts,
    spans: Seq<StyleSpan>,
    place: Place,
    bounds: Rect,
    x: int,
    y: int,
)
    requires
        place.y != y,
    ensures
        untouched(bounds, line_strokes(line, style, spans, place), x, y),
{
    lemma_graphemes_untouched(
        graphemes(line),
        graphemes(line).len() as int,
        style,
        spans,
        place,
        bounds,
        x,
        y,
    );
}

proof fn lemma_graphemes_untouched(
    list: Seq<Seq<char>>,
    k: int,
    style: StyleParts,
    spans: Seq<StyleSpan>,
    place: Place,
    bounds: Rect,
    x: int,
    y: int,
)
    requires
        place.y != y,
    ensures
        untouched(bounds, grapheme_strokes(list, k, style, spans, place), x, y),
    decreases k,
{
    if k > 0 {
        lemma_graphemes_untouched(list, k - 1, style, spans, place, bounds, x, y);
        lemma_untouched_add(
            bounds,
            grapheme_strokes(list, k - 1, style, spans, place),
            maybe(grapheme_stroke(list, k - 1, style, spans, place)),
            x,
            y,
        );
    }
}

proof fn lemma_each_untouched(
    bounds: Rect,
    n: int,
    of: spec_fn(int) -> Seq<Stroke>,
    x: int,
    y: int,
)
    requires
        0 <= n,
        forall|j: int| 0 <= j < n ==> untouched(bounds, #[trigger] of(j), x, y),
    ensures
        untouched(bounds, each(n, of), x, y),
{
    lemma_rest_untouched(bounds, n, 0, of, x, y);
    assert(each(n, of).skip(0) =~= each(n, of));
}

/// A row of the body is drawn on its own row of the screen.
proof fn lemma_other_rows_untouched(
    snapshot: RenderSnapshot,
    area: Rect,
    layout: Layout,
    own: u16,
    bounds: Rect,
    x: int,
    y: int,
)
    requires
        own != y,
    ensures
        untouched(bounds, body_strokes(snapshot, area, layout, own), x, y),
{
    let row = word(snapshot.viewport.top_row + above_zero(own - area.y));
    if let Some(index) = snapshot.local_row(row) {
        let line = snapshot.lines@[index]@;
        let width = shown_width(line) as int;
        let place = Place {
            y: own,
            area: layout.text,
            clipped: layout.text.spec_intersection(layout.clipped),
            left: snapshot.viewport.left_column,
        };
        let style = style_parts(snapshot.text_style);
        let a = gutter_strokes(snapshot, layout, index, own);
        if a.len() > 0 {
            lemma_line_untouched(
                number_label(snapshot.line_numbers@[index]->0, snapshot.digits()),
                style_parts(snapshot.gutter_style),
                Seq::empty(),
                Place {
                    y: own,
                    area: layout.gutter,
                    clipped: layout.gutter.spec_intersection(layout.clipped),
                    left: 0,
                },
                bounds,
                x,
                y,
            );
        }
        let b = line_strokes(line, style, row_spans(snapshot, index), place);
        lemma_line_untouched(line, style, row_spans(snapshot, index), place, bounds, x, y);
        lemma_untouched_add(bounds, a, b, x, y);
        let backgrounds = background_strokes(snapshot.background_ranges@, row, width, place);
        let c = each(snapshot.background_ranges@.len() as int, backgrounds);
        lemma_each_untouched(
            bounds,
            snapshot.background_ranges@.len() as int,
            backgrounds,
            x,
            y,
        );
        lemma_untouched_add(bounds, a + b, c, x, y);
        let decorations = decoration_strokes(snapshot.cell_decorations@, row, place);
        let d = each(snapshot.cell_decorations@.len() as int, decorations);
        lemma_each_untouched(bounds, snapshot.cell_decorations@.len() as int, decorations, x, y);
        lemma_untouched_add(bounds, a + b + c, d, x, y);
        let notes = annotation_strokes(snapshot.inline_annotations@, row, place);
        let e = each(snapshot.inline_annotations@.len() as int, notes);
        assert forall|j: int| 0 <= j < snapshot.inline_annotations@.len() implies untouched(
            bounds,
            #[trigger] notes(j),
            x,
            y,
        ) by {
            let note = snapshot.inline_annotations@[j];
            if let Some(at) = annotation_place(note, row, place) {
                lemma_line_untouched(
                    note.text@,
                    style_parts(note.style),
                    Seq::empty(),
                    at,
                    bounds,
                    x,
                    y,
                );
            }
        }
        lemma_each_untouched(bounds, snapshot.inline_annotations@.len() as int, notes, x, y);
        lemma_untouched_add(bounds, a + b + c + d, e, x, y);
        let selections = selection_strokes(snapshot.selections@, row, width, place);
        let f = each(snapshot.selections@.len() as int, selections);
        lemma_each_untouched(bounds, snapshot.selections@.len() as int, selections, x, y);
        lemma_untouched_add(bounds, a + b + c + d + e, f, x, y);
    }
}

/// Whether a row of the screen is one of the body that can be seen.
pub open spec fn body_row(snapshot: RenderSnapshot, area: Rect, bounds: Rect, y: u16) -> bool {
    let layout = layout_of(snapshot, area, bounds);
    let body = layout.body.spec_intersection(layout.clipped);
    !layout.clipped.spec_is_empty() && body.y <= y < body.spec_bottom()
}

/// Nothing is drawn over a row of the body once it is drawn.
proof fn lemma_rows_stay(snapshot: RenderSnapshot, area: Rect, bounds: Rect, x: int, y: u16)
    requires
        bare(snapshot),
        body_row(snapshot, area, bounds, y),
    ensures
        ({
            let layout = layout_of(snapshot, area, bounds);
            let all = snapshot_strokes(snapshot, area, bounds);
            let until = strokes_above(snapshot, area, bounds, y as int) + body_strokes(
                snapshot,
                area,
                layout,
                y,
            );
            &&& until.len() <= all.len()
            &&& all.take(until.len() as int) == until
            &&& untouched(bounds, all.skip(until.len() as int), x, y as int)
        }),
{
    let layout = layout_of(snapshot, area, bounds);
    let body = layout.body.spec_intersection(layout.clipped);
    let rows = rows_strokes(snapshot, area, layout, body.y as int);
    let count = body.spec_bottom() - body.y;
    let r = y - body.y;
    let all = snapshot_strokes(snapshot, area, bounds);
    let head = strokes_above(snapshot, area, bounds, body.y as int);
    assert(each(0, rows) =~= Seq::<Stroke>::empty());
    let until = strokes_above(snapshot, area, bounds, y as int) + body_strokes(
        snapshot,
        area,
        layout,
        y,
    );
    assert((body.y + r) as u16 == y);
    assert(rows(r) == body_strokes(snapshot, area, layout, y));
    assert(until =~= head + each(r + 1, rows));
    assert forall|j: int| r + 1 <= j < count implies untouched(
        bounds,
        #[trigger] rows(j),
        x,
        y as int,
    ) by {
        lemma_other_rows_untouched(
            snapshot,
            area,
            layout,
            (body.y + j) as u16,
            bounds,
            x,
            y as int,
        );
    }
    lemma_rest_untouched(bounds, count, r + 1, rows, x, y as int);
    let rest = each(count, rows).skip(each(r + 1, rows).len() as int);
    let text = layout.text.spec_intersection(layout.clipped);
    let cursors = each(
        snapshot.secondary_cursors@.len() as int,
        cursor_strokes(snapshot, layout.text, text),
    );
    let over = overlaid_strokes(snapshot, layout.body, layout.clipped);
    let status = status_strokes(snapshot, area, layout.clipped);
    assert(cursors =~= Seq::<Stroke>::empty());
    assert(over =~= Seq::<Stroke>::empty());
    assert(all =~= head + each(count, rows) + status);
    assert(each(count, rows) =~= each(r + 1, rows) + rest);
    assert(all =~= until + (rest + status));
    assert(all.take(until.len() as int) =~= until);
    assert(all.skip(until.len() as int) =~= rest + status);
    if status.len() > 0 {
        let last = coordinate(area.y + (area.height - 1)) as u16;
        let style = with_modifiers(style_parts(snapshot.text_style), REVERSED);
        let place = Place { y: last, area, clipped: layout.clipped, left: 0 };
        let line = line_strokes(snapshot.status_line(), style, Seq::empty(), place);
        lemma_line_untouched(
            snapshot.status_line(),
            style,
            Seq::empty(),
            place,
            bounds,
            x,
            y as int,
        );
        assert(status =~= status.take(1) + line);
        lemma_untouched_add(bounds, status.take(1), line, x, y as int);
    }
    lemma_untouched_add(bounds, rest, status, x, y as int);
}

/// Draws a snapshot in an area of a buffer. What lies outside the buffer is
/// left out. The other cells stay as they are, and to draw the snapshot once
/// more would change nothing.
pub fn render_snapshot(snapshot: &RenderSnapshot, area: Rect, buffer: &mut Buffer)
    ensures
        buffer_area(*final(buffer)) == buffer_area(*old(buffer)),
        buffer_cells(*final(buffer)) == drawn(
            buffer_cells(*old(buffer)),
            buffer_area(*old(buffer)),
            snapshot_strokes(*snapshot, area, buffer_area(*old(buffer))),
        ),
        buffer_cells(*final(buffer)).dom() == buffer_cells(*old(buffer)).dom(),
        forall|at: (int, int)|
            buffer_cells(*old(buffer)).contains_key(at) && !area.spec_intersection(
                buffer_area(*old(buffer)),
            ).holds(at.0, at.1) ==> #[trigger] buffer_cells(*final(buffer))[at] == buffer_cells(
                *old(buffer),
            )[at],
        drawn(
            buffer_cells(*final(buffer)),
            buffer_area(*old(buffer)),
            snapshot_strokes(*snapshot, area, buffer_area(*old(buffer))),
        ) == buffer_cells(*final(buffer)),
        bare(*snapshot) ==> forall|x: int, y: u16|
            body_row(*snapshot, area, buffer_area(*old(buffer)), y) && #[trigger] buffer_cells(
                *old(buffer),
            ).contains_key((x, y as int)) ==> buffer_cells(*final(buffer))[(x, y as int)] == drawn(
                drawn(
                    buffer_cells(*old(buffer)),
                    buffer_area(*old(buffer)),
                    strokes_above(*snapshot, area, buffer_area(*old(buffer)), y as int),
                ),
                buffer_area(*old(buffer)),
                body_strokes(
                    *snapshot,
                    area,
                    layout_of(*snapshot, area, buffer_area(*old(buffer))),
                    y,
                ),
            )[(x, y as int)],
{
    let bounds = area_of(buffer);
    let out = snapshot_paints(snapshot, area, bounds);
    let ghost before = buffer_cells(*buffer);
    let ghost clipped = area.spec_intersection(bounds);
    proof {
        drawings_keep_to_their_area(*snapshot, area, bounds);
    }
    paint(buffer, &out);
    proof {
        let after = buffer_cells(*buffer);
        assert forall|at: (int, int)|
            before.contains_key(at) && !clipped.holds(at.0, at.1) implies #[trigger] after[at]
            == before[at] by {
            lemma_other_cells_untouched(bounds, cells_of(clipped), strokes(out@), at.0, at.1);
        }
        lemma_frame_forgets(*snapshot, area, bounds, after, before);
        if bare(*snapshot) {
            assert forall|x: int, y: u16|
                body_row(*snapshot, area, bounds, y) && #[trigger] before.contains_key(
                    (x, y as int),
                ) implies after[(x, y as int)] == drawn(
                drawn(before, bounds, strokes_above(*snapshot, area, bounds, y as int)),
                bounds,
                body_strokes(*snapshot, area, layout_of(*snapshot, area, bounds), y),
            )[(x, y as int)] by {
                lemma_rows_stay(*snapshot, area, bounds, x, y);
                let above = strokes_above(*snapshot, area, bounds, y as int);
                let own = body_strokes(*snapshot, area, layout_of(*snapshot, area, bounds), y);
                drawings_join(before, bounds, above, own);
                let k = (above + own).len() as int;
                assert(untouched(bounds, strokes(out@).skip(k), x, y as int));
            }
        }
    }
}

impl<'a> EditorWidget<'a> {
    /// Draws the snapshot.
    pub fn render(&self, area: Rect, buffer: &mut Buffer)
        ensures
            buffer_area(*final(buffer)) == buffer_area(*old(buffer)),
            buffer_cells(*final(buffer)) == drawn(
                buffer_cells(*old(buffer)),
                buffer_area(*old(buffer)),
                snapshot_strokes(self@, area, buffer_area(*old(buffer))),
            ),
            buffer_cells(*final(buffer)).dom() == buffer_cells(*old(buffer)).dom(),
            forall|at: (int, int)|
                buffer_cells(*old(buffer)).contains_key(at) && !area.spec_intersection(
                    buffer_area(*old(buffer)),
                ).holds(at.0, at.1) ==> #[trigger] buffer_cells(*final(buffer))[at] == buffer_cells(
                    *old(buffer),
                )[at],
            drawn(
                buffer_cells(*final(buffer)),
                buffer_area(*old(buffer)),
                snapshot_strokes(self@, area, buffer_area(*old(buffer))),
            ) == buffer_cells(*final(buffer)),
            bare(self@) ==> forall|x: int, y: u16|
                body_row(self@, area, buffer_area(*old(buffer)), y) && #[trigger] buffer_cells(
                    *old(buffer),
                ).contains_key((x, y as int)) ==> buffer_cells(*final(buffer))[(x, y as int)] == drawn(
                    drawn(
                        buffer_cells(*old(buffer)),
                        buffer_area(*old(buffer)),
                        strokes_above(self@, area, buffer_area(*old(buffer)), y as int),
                    ),
                    buffer_area(*old(buffer)),
                    body_strokes(
                        self@,
                        area,
                        layout_of(self@, area, buffer_area(*old(buffer))),
                        y,
                    ),
                )[(x, y as int)],
    {
        render_snapshot(self.snapshot, area, buffer);
    }
}

/// What can be clicked is what is drawn. In an area that the buffer shows
/// whole, a cell that stands for a text position within the line lies on a
/// grapheme that is drawn there, from the column where it starts.
pub proof fn clickable_graphemes_are_drawn(
    snapshot: RenderSnapshot,
    area: Rect,
    buffer: Rect,
    at: Position,
    style: StyleParts,
    spans: Seq<StyleSpan>,
)
    requires
        area.x + area.width <= u16::MAX,
        area.y + area.height <= u16::MAX,
        area.spec_intersection(buffer) == area,
        snapshot.viewport.left_column + area.width < usize::MAX,
        snapshot.hit_at(area, at) is Some,
    ensures
        ({
            let layout = layout_of(snapshot, area, buffer);
            let place = Place {
                y: at.y,
                area: layout.text,
                clipped: layout.text.spec_intersection(layout.clipped),
                left: snapshot.viewport.left_column,
            };
            let (position, column) = snapshot.hit_at(area, at)->0;
            let line = snapshot.row_text(position.row as int)->0;
            let list = graphemes(line);
            let k = hit(list, column as int, 0);
            &&& place.shows_row()
            &&& k < list.len() ==> {
                &&& grapheme_stroke(list, k, style, spans, place) matches Some(
                    Stroke::Text { x, y, text, .. },
                )
                &&& y == at.y
                &&& text == list[k]
                &&& x <= at.x < x + cell_width(text)
            }
        }),
{
    let (position, column) = snapshot.hit_at(area, at)->0;
    let line = snapshot.row_text(position.row as int)->0;
    let list = graphemes(line);
    let k = hit(list, column as int, 0);
    lemma_hit(list, column as int, 0);
    if k < list.len() {
        columns_grow(list, 0, k);
        let layout = layout_of(snapshot, area, buffer);
        let text = layout.text;
        let left = snapshot.viewport.left_column as int;
        let place = Place {
            y: at.y,
            area: text,
            clipped: text.spec_intersection(layout.clipped),
            left: snapshot.viewport.left_column,
        };
        let start = columns(list, k);
        assert(columns(list, k + 1) == start + cell_width(list[k]));
        assert(text == snapshot.text_rect(area).spec_intersection(layout.body));
        assert(place.clip() == (0int, text.width as int));
        assert(place.room(start) == Some(text.width - (start - left)));
    }
}

/// The cursor, where it is visible, stands in the area: on the status row for
/// a prompt, above it and behind the gutter else.
pub proof fn cursor_stands_in_the_area(snapshot: RenderSnapshot, area: Rect)
    requires
        area.x + area.width <= u16::MAX,
        area.y + area.height <= u16::MAX,
        snapshot.cursor_cell(area) is Some,
    ensures
        ({
            let cell = snapshot.cursor_cell(area)->0;
            &&& area.holds(cell.x as int, cell.y as int)
            &&& snapshot.status_cursor_column is Some ==> cell.y == area.y + area.height - 1
            &&& snapshot.status_cursor_column is None ==> cell.y < area.y + area.height - 1
                && cell.x >= area.x + snapshot.gutter(area)
        }),
{
}

/// An overlay lies in the clip, and shows its selected row.
pub proof fn overlay_shows_its_selection(overlay: OverlaySnapshot, body: Rect, clipped: Rect)
    requires
        body.width >= 4,
        body.height >= 3,
        overlay_area(overlay, body, clipped).width >= 4,
        overlay_area(overlay, body, clipped).height >= 3,
    ensures
        ({
            let area = overlay_area(overlay, body, clipped);
            let inner = area.spec_inside_border();
            let count = overlay.rows@.len() as int;
            let first = window_start_of(count, overlay.shown_selection(), inner.height as int);
            &&& clipped.x <= area.x && area.spec_right() <= clipped.spec_right()
            &&& clipped.y <= area.y && area.spec_bottom() <= clipped.spec_bottom()
            &&& overlay.shown_selection() matches Some(index) ==> first <= index < first
                + inner.height
        }),
{
    let area = overlay_area(overlay, body, clipped);
    window_shows_the_selection(
        overlay.rows@.len() as int,
        overlay.shown_selection(),
        area.spec_inside_border().height as int,
    );
}

} // verus!
