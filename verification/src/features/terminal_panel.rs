//! The panel of terminals: which there are, which one is shown, and its cells,
//! title, and cursor as they are drawn.

use ratatui::style::Style;
use vstd::prelude::*;
use vstd::string::*;

use crate::features::language::first_rows;
use crate::geometry::{above_zero, at_most, least};
use crate::input::Keystroke;
use crate::paint::{
    add_modifiers, colored, known_color, no_parts, plain_style, style_parts, with_color,
    with_modifiers, HostColor, StyleParts, BOLD, CROSSED_OUT, DIM, ITALIC, REVERSED, UNDERLINED,
};
use crate::text::{chars_of, control, decimal, is_control, push_decimal};

verus! {

broadcast use vstd::string::group_string_axioms;

/// The key context of this panel's bindings. Arrows, Enter, and Esc belong to
/// the shell.
pub const KEY_CONTEXT: &'static str = "zec_terminal_panel";

pub const TITLE_CHARS: usize = 60;

/// The shell or task in a terminal ended.
#[derive(Debug)]
pub enum TerminalPanelEvent {
    Closed { entity_id: u64 },
}

/// What the app does after the panel handled an event.
#[derive(Clone, Copy, Debug, PartialEq, Eq, Structural)]
pub enum TerminalOutcome {
    Continue,
    /// The last terminal closed; there is nothing left to show.
    Emptied,
}

/// A terminal, and the number in its title.
#[derive(Clone, Copy, Debug, PartialEq, Eq, Structural)]
pub struct Slot {
    pub entity_id: u64,
    pub number: usize,
}

/// The terminals of the panel.
pub struct Slots {
    pub slots: Seq<Slot>,
    pub active: int,
    /// How many terminals were ever opened.
    pub opened: int,
}

/// The index of the first slot of a terminal.
pub open spec fn slot_of(slots: Seq<Slot>, entity_id: u64) -> Option<int>
    decreases slots.len(),
{
    if slots.len() == 0 {
        None
    } else {
        match slot_of(slots.drop_last(), entity_id) {
            Some(index) => Some(index),
            None => if slots.last().entity_id == entity_id {
                Some(slots.len() - 1)
            } else {
                None
            },
        }
    }
}

impl Slots {
    /// The active terminal is one of those that there are, and their numbers
    /// grow.
    pub open spec fn valid(self) -> bool {
        &&& self.slots.len() == 0 ==> self.active == 0
        &&& self.slots.len() > 0 ==> 0 <= self.active < self.slots.len()
        &&& forall|i: int, j: int|
            0 <= i < j < self.slots.len() ==> (#[trigger] self.slots[i]).number < (
            #[trigger] self.slots[j]).number
        &&& forall|i: int|
            0 <= i < self.slots.len() ==> 0 < (#[trigger] self.slots[i]).number <= self.opened
    }

    /// The number of the active terminal.
    pub open spec fn number(self) -> Option<usize> {
        if 0 <= self.active < self.slots.len() {
            Some(self.slots[self.active].number)
        } else {
            None
        }
    }

    /// With one more terminal, which is the active one.
    pub open spec fn adopted(self, entity_id: u64) -> Slots {
        Slots {
            slots: self.slots.push(Slot { entity_id, number: (self.opened + 1) as usize }),
            active: self.slots.len() as int,
            opened: self.opened + 1,
        }
    }

    /// With the next or previous terminal active.
    pub open spec fn stepped(self, forward: bool) -> Slots {
        let count = self.slots.len() as int;
        if count < 2 {
            self
        } else {
            Slots {
                active: if forward {
                    (self.active + 1) % count
                } else {
                    (self.active + count - 1) % count
                },
                ..self
            }
        }
    }

    /// Without a terminal.
    pub open spec fn without(self, entity_id: u64) -> Slots {
        match slot_of(self.slots, entity_id) {
            Some(index) => Slots {
                slots: self.slots.remove(index),
                active: least(self.active, above_zero(self.slots.len() - 2)),
                ..self
            },
            None => self,
        }
    }
}

/// What is done with a key.
#[derive(Debug, PartialEq, Eq)]
pub enum TerminalKey {
    /// No terminal takes it.
    Ignored,
    /// The terminal took it.
    Taken,
    /// The terminal is to get this text.
    Input(String),
}

/// The panel of terminals.
#[derive(Debug)]
pub struct TerminalPanel {
    slots: Vec<Slot>,
    active: usize,
    opened: usize,
}

impl View for TerminalPanel {
    type V = Slots;

    closed spec fn view(&self) -> Slots {
        Slots { slots: self.slots@, active: self.active as int, opened: self.opened as int }
    }
}

impl Default for TerminalPanel {
    fn default() -> (panel: Self)
        ensures
            panel@ == (Slots { slots: Seq::empty(), active: 0, opened: 0 }),
            panel@.valid(),
    {
        TerminalPanel { slots: Vec::new(), active: 0, opened: 0 }
    }
}

impl TerminalPanel {
    #[verifier::type_invariant]
    spec fn sound(self) -> bool {
        self.active < self.slots@.len() || self.slots@.len() == 0 && self.active == 0
    }

    pub fn is_empty(&self) -> (empty: bool)
        ensures
            empty == (self@.slots.len() == 0),
    {
        self.slots.len() == 0
    }

    /// The number in the title of the active terminal.
    pub fn active_number(&self) -> (number: Option<usize>)
        ensures
            number == self@.number(),
    {
        if self.active < self.slots.len() {
            Some(self.slots[self.active].number)
        } else {
            None
        }
    }

    /// The active terminal.
    pub fn active_terminal(&self) -> (entity_id: Option<u64>)
        ensures
            entity_id == if self@.active < self@.slots.len() {
                Some(self@.slots[self@.active].entity_id)
            } else {
                None
            },
    {
        if self.active < self.slots.len() {
            Some(self.slots[self.active].entity_id)
        } else {
            None
        }
    }

    /// How many terminals were ever opened.
    pub fn opened(&self) -> (count: usize)
        ensures
            count == self@.opened,
    {
        self.opened
    }

    /// Takes over a terminal, and makes it the active one: its number.
    pub fn adopt(&mut self, entity_id: u64) -> (number: usize)
        requires
            old(self)@.opened < usize::MAX,
        ensures
            final(self)@ == old(self)@.adopted(entity_id),
            number == old(self)@.opened + 1,
    {
        let mut own = TerminalPanel::default();
        std::mem::swap(&mut own, self);
        let TerminalPanel { mut slots, active: _, opened } = own;
        let number: usize = opened + 1;
        let active: usize = slots.len();
        slots.push(Slot { entity_id, number });
        *self = TerminalPanel { slots, active, opened: number };
        number
    }

    /// Makes the next or previous terminal the active one: its number.
    pub fn select_adjacent(&mut self, forward: bool) -> (number: Option<usize>)
        ensures
            final(self)@ == old(self)@.stepped(forward),
            number == if old(self)@.slots.len() < 2 {
                None
            } else {
                old(self)@.stepped(forward).number()
            },
    {
        proof {
            use_type_invariant(&*self);
        }
        let count: usize = self.slots.len();
        if count < 2 {
            return None;
        }
        if forward {
            if self.active == count - 1 {
                assert((self.active + 1) % (count as int) == 0) by (nonlinear_arith)
                    requires
                        self.active + 1 == count,
                        count > 0,
                ;
                self.active = 0;
            } else {
                assert((self.active + 1) % (count as int) == self.active + 1) by (nonlinear_arith)
                    requires
                        self.active + 1 < count,
                ;
                self.active += 1;
            }
        } else {
            if self.active == 0 {
                assert((count - 1) % (count as int) == count - 1) by (nonlinear_arith)
                    requires
                        count > 0,
                ;
                self.active = count - 1;
            } else {
                assert((self.active + count - 1) % (count as int) == self.active - 1)
                    by (nonlinear_arith)
                    requires
                        0 < self.active < count,
                ;
                self.active -= 1;
            }
        }
        self.active_number()
    }

    /// A terminal ended.
    pub fn update(&mut self, event: TerminalPanelEvent) -> (outcome: TerminalOutcome)
        ensures
            ({
                let after = old(self)@.without(event->entity_id);
                final(self)@ == after && outcome == if after.slots.len() == 0 {
                    TerminalOutcome::Emptied
                } else {
                    TerminalOutcome::Continue
                }
            }),
    {
        let TerminalPanelEvent::Closed { entity_id } = event;
        let mut i: usize = 0;
        let mut index: Option<usize> = None;
        assert(self.slots@.take(0) =~= Seq::<Slot>::empty());
        while i < self.slots.len()
            invariant
                i <= self.slots@.len(),
                self@ == old(self)@,
                match index {
                    Some(index) => index < i && slot_of(self.slots@.take(i as int), entity_id)
                        == Some(index as int),
                    None => slot_of(self.slots@.take(i as int), entity_id) is None,
                },
            decreases self.slots@.len() - i,
        {
            proof {
                assert(self.slots@.take(i + 1).drop_last() =~= self.slots@.take(i as int));
            }
            if index.is_none() && self.slots[i].entity_id == entity_id {
                index = Some(i);
            }
            i += 1;
        }
        assert(self.slots@.take(i as int) =~= self.slots@);
        if let Some(index) = index {
            proof {
                use_type_invariant(&*self);
            }
            let mut own = TerminalPanel::default();
            std::mem::swap(&mut own, self);
            let TerminalPanel { mut slots, active, opened } = own;
            let _ = slots.remove(index);
            let active: usize = at_most(active, slots.len().saturating_sub(1));
            *self = TerminalPanel { slots, active, opened };
        }
        if self.slots.len() == 0 {
            TerminalOutcome::Emptied
        } else {
            TerminalOutcome::Continue
        }
    }

    /// What is done with a key that nothing else claimed. `mapped` tells
    /// whether the terminal has a sequence for it, which it then has sent.
    pub fn key(&self, keystroke: &Keystroke, mapped: bool) -> (result: TerminalKey)
        ensures
            match result {
                TerminalKey::Ignored => self@.active >= self@.slots.len() || !mapped
                    && keystroke@.key_char is None,
                TerminalKey::Taken => self@.active < self@.slots.len() && mapped,
                TerminalKey::Input(text) => self@.active < self@.slots.len() && !mapped
                    && keystroke@.key_char == Some(text@),
            },
    {
        if self.active >= self.slots.len() {
            return TerminalKey::Ignored;
        }
        if mapped {
            return TerminalKey::Taken;
        }
        match &keystroke.key_char {
            Some(text) => TerminalKey::Input(text.clone()),
            None => TerminalKey::Ignored,
        }
    }

    /// Drops all terminals.
    pub fn close_all(&mut self)
        ensures
            final(self)@ == (Slots { slots: Seq::empty(), active: 0, ..old(self)@ }),
    {
        let opened: usize = self.opened;
        *self = TerminalPanel { slots: Vec::new(), active: 0, opened };
    }
}

/// A terminal's own names for colors.
#[derive(Clone, Copy, Debug, PartialEq, Eq, Structural)]
pub enum NamedColor {
    Black,
    Red,
    Green,
    Yellow,
    Blue,
    Magenta,
    Cyan,
    White,
    BrightBlack,
    BrightRed,
    BrightGreen,
    BrightYellow,
    BrightBlue,
    BrightMagenta,
    BrightCyan,
    BrightWhite,
    Foreground,
    Background,
    Cursor,
    DimBlack,
    DimRed,
    DimGreen,
    DimYellow,
    DimBlue,
    DimMagenta,
    DimCyan,
    DimWhite,
    BrightForeground,
    DimForeground,
}

/// A color of a cell.
#[derive(Clone, Copy, Debug, PartialEq, Eq, Structural)]
pub enum CellColor {
    Named(NamedColor),
    Spec(u8, u8, u8),
    Indexed(u8),
}

/// The color of the host for a name. The default colors of text and background
/// stay unset in their own place.
pub open spec fn named_host(color: NamedColor, foreground: bool) -> Option<HostColor> {
    match color {
        NamedColor::Black | NamedColor::DimBlack => Some(HostColor::Ansi(0)),
        NamedColor::Red | NamedColor::DimRed => Some(HostColor::Ansi(1)),
        NamedColor::Green | NamedColor::DimGreen => Some(HostColor::Ansi(2)),
        NamedColor::Yellow | NamedColor::DimYellow => Some(HostColor::Ansi(3)),
        NamedColor::Blue | NamedColor::DimBlue => Some(HostColor::Ansi(4)),
        NamedColor::Magenta | NamedColor::DimMagenta => Some(HostColor::Ansi(5)),
        NamedColor::Cyan | NamedColor::DimCyan => Some(HostColor::Ansi(6)),
        NamedColor::White | NamedColor::DimWhite => Some(HostColor::Ansi(7)),
        NamedColor::BrightBlack => Some(HostColor::Ansi(8)),
        NamedColor::BrightRed => Some(HostColor::Ansi(9)),
        NamedColor::BrightGreen => Some(HostColor::Ansi(10)),
        NamedColor::BrightYellow => Some(HostColor::Ansi(11)),
        NamedColor::BrightBlue => Some(HostColor::Ansi(12)),
        NamedColor::BrightMagenta => Some(HostColor::Ansi(13)),
        NamedColor::BrightCyan => Some(HostColor::Ansi(14)),
        NamedColor::BrightWhite | NamedColor::Cursor => Some(HostColor::Ansi(15)),
        NamedColor::Foreground | NamedColor::BrightForeground | NamedColor::DimForeground => {
            if foreground {
                None
            } else {
                Some(HostColor::Ansi(15))
            }
        },
        NamedColor::Background => if foreground {
            Some(HostColor::Ansi(0))
        } else {
            None
        },
    }
}

/// The color of the host for a color of a cell.
pub open spec fn host_color(color: CellColor, foreground: bool) -> Option<HostColor> {
    match color {
        CellColor::Spec(r, g, b) => Some(HostColor::Rgb(r, g, b)),
        CellColor::Indexed(index) => Some(HostColor::Indexed(index)),
        CellColor::Named(named) => named_host(named, foreground),
    }
}

/// The color of the host for a name.
pub fn named_color(color: NamedColor, foreground: bool) -> (result: Option<HostColor>)
    ensures
        result == named_host(color, foreground),
{
    match color {
        NamedColor::Black | NamedColor::DimBlack => Some(HostColor::Ansi(0)),
        NamedColor::Red | NamedColor::DimRed => Some(HostColor::Ansi(1)),
        NamedColor::Green | NamedColor::DimGreen => Some(HostColor::Ansi(2)),
        NamedColor::Yellow | NamedColor::DimYellow => Some(HostColor::Ansi(3)),
        NamedColor::Blue | NamedColor::DimBlue => Some(HostColor::Ansi(4)),
        NamedColor::Magenta | NamedColor::DimMagenta => Some(HostColor::Ansi(5)),
        NamedColor::Cyan | NamedColor::DimCyan => Some(HostColor::Ansi(6)),
        NamedColor::White | NamedColor::DimWhite => Some(HostColor::Ansi(7)),
        NamedColor::BrightBlack => Some(HostColor::Ansi(8)),
        NamedColor::BrightRed => Some(HostColor::Ansi(9)),
        NamedColor::BrightGreen => Some(HostColor::Ansi(10)),
        NamedColor::BrightYellow => Some(HostColor::Ansi(11)),
        NamedColor::BrightBlue => Some(HostColor::Ansi(12)),
        NamedColor::BrightMagenta => Some(HostColor::Ansi(13)),
        NamedColor::BrightCyan => Some(HostColor::Ansi(14)),
        NamedColor::BrightWhite | NamedColor::Cursor => Some(HostColor::Ansi(15)),
        NamedColor::Foreground | NamedColor::BrightForeground | NamedColor::DimForeground => {
            if foreground {
                None
            } else {
                Some(HostColor::Ansi(15))
            }
        },
        NamedColor::Background => if foreground {
            Some(HostColor::Ansi(0))
        } else {
            None
        },
    }
}

/// The color of the host for a color of a cell.
pub fn color(own: CellColor, foreground: bool) -> (result: Option<HostColor>)
    ensures
        result == host_color(own, foreground),
{
    match own {
        CellColor::Spec(r, g, b) => Some(HostColor::Rgb(r, g, b)),
        CellColor::Indexed(index) => Some(HostColor::Indexed(index)),
        CellColor::Named(named) => named_color(named, foreground),
    }
}

/// A cell of a terminal's grid.
#[derive(Debug)]
pub struct Cell {
    pub line: i32,
    pub column: usize,
    pub character: char,
    /// What combines with the character.
    pub zerowidth: Vec<char>,
    pub is_wide_char_spacer: bool,
    pub foreground: CellColor,
    pub background: CellColor,
    pub is_inverse: bool,
    pub is_bold: bool,
    pub is_dim: bool,
    pub is_italic: bool,
    pub has_underline: bool,
    pub has_undercurl: bool,
    pub has_strikeout: bool,
    /// Whether the cell is in the selection.
    pub selected: bool,
}

/// A style with a color, where there is one.
pub open spec fn tinted(style: StyleParts, color: Option<HostColor>, foreground: bool) -> StyleParts {
    match color {
        Some(color) => with_color(style, color, foreground),
        None => style,
    }
}

/// A style with modifiers, where they are on.
pub open spec fn modified(style: StyleParts, on: bool, bits: u16) -> StyleParts {
    if on {
        with_modifiers(style, bits)
    } else {
        style
    }
}

/// How a cell is drawn.
pub open spec fn cell_parts(cell: Cell) -> StyleParts {
    let (text, back) = if cell.is_inverse {
        (cell.background, cell.foreground)
    } else {
        (cell.foreground, cell.background)
    };
    let style = tinted(no_parts(), host_color(text, true), true);
    let style = tinted(style, host_color(back, false), false);
    let style = modified(style, cell.is_bold, BOLD);
    let style = modified(style, cell.is_dim, DIM);
    let style = modified(style, cell.is_italic, ITALIC);
    let style = modified(style, cell.has_underline || cell.has_undercurl, UNDERLINED);
    let style = modified(style, cell.has_strikeout, CROSSED_OUT);
    modified(style, cell.selected, REVERSED)
}

fn tint(style: Style, color: Option<HostColor>, foreground: bool) -> (result: Style)
    requires
        color is Some ==> known_color(color->0),
    ensures
        style_parts(result) == tinted(style_parts(style), color, foreground),
{
    match color {
        Some(color) => colored(style, color, foreground),
        None => style,
    }
}

fn modify(style: Style, on: bool, bits: u16) -> (result: Style)
    requires
        bits < 0x200,
    ensures
        style_parts(result) == modified(style_parts(style), on, bits),
{
    if on {
        add_modifiers(style, bits)
    } else {
        style
    }
}

/// How a cell is drawn.
pub fn cell_style(cell: &Cell) -> (style: Style)
    ensures
        style_parts(style) == cell_parts(*cell),
{
    let (text, back) = if cell.is_inverse {
        (cell.background, cell.foreground)
    } else {
        (cell.foreground, cell.background)
    };
    let style = tint(plain_style(), color(text, true), true);
    let style = tint(style, color(back, false), false);
    let style = modify(style, cell.is_bold, BOLD);
    let style = modify(style, cell.is_dim, DIM);
    let style = modify(style, cell.is_italic, ITALIC);
    let style = modify(style, cell.has_underline || cell.has_undercurl, UNDERLINED);
    let style = modify(style, cell.has_strikeout, CROSSED_OUT);
    modify(style, cell.selected, REVERSED)
}

/// How the task of a terminal stands.
#[derive(Clone, Copy, Debug, PartialEq, Eq, Structural)]
pub enum TaskStatus {
    Unknown,
    Running,
    Completed { success: bool },
}

/// The grid of a terminal.
#[derive(Debug)]
pub struct Content {
    pub cells: Vec<Cell>,
    pub screen_lines: usize,
    pub columns: usize,
    pub cursor_line: i32,
    pub cursor_column: usize,
    /// Whether the program shows the cursor.
    pub show_cursor: bool,
    /// Whether the cursor has no shape.
    pub cursor_hidden: bool,
    pub scrolled_to_bottom: bool,
}

/// A cell as it is drawn.
#[derive(Debug)]
pub struct TerminalCell {
    pub row: usize,
    pub column: usize,
    pub symbol: String,
    pub style: Style,
}

/// The plain values of a [`TerminalCell`].
pub struct DrawnCell {
    pub row: int,
    pub column: int,
    pub symbol: Seq<char>,
    pub style: StyleParts,
}

impl View for TerminalCell {
    type V = DrawnCell;

    open spec fn view(&self) -> DrawnCell {
        DrawnCell {
            row: self.row as int,
            column: self.column as int,
            symbol: self.symbol@,
            style: style_parts(self.style),
        }
    }
}

/// The plain values of some cells.
pub open spec fn drawn_cells(list: Seq<TerminalCell>) -> Seq<DrawnCell> {
    Seq::new(list.len(), |i: int| list[i]@)
}

/// A terminal as it is drawn.
#[derive(Debug)]
pub struct TerminalPanelSnapshot {
    pub title: String,
    pub cells: Vec<TerminalCell>,
    pub cursor: Option<(usize, usize)>,
}

/// The line of the grid that the first row shows.
pub open spec fn first_line(content: Content) -> int {
    if content.cells@.len() == 0 {
        content.cursor_line as int
    } else {
        content.cells@[0].line as int
    }
}

/// The row of a line.
pub open spec fn screen_row(line: int, first: int) -> Option<int> {
    if line < first {
        None
    } else {
        Some(least(line - first, i32::MAX as int))
    }
}

/// Where a place of the grid is drawn.
pub open spec fn screen_place(content: Content, line: int, column: int) -> Option<int> {
    match screen_row(line, first_line(content)) {
        Some(row) => if row < content.screen_lines && column < content.columns {
            Some(row)
        } else {
            None
        },
        None => None,
    }
}

/// The cells that are drawn.
pub open spec fn shown_cells(content: Content, list: Seq<Cell>) -> Seq<DrawnCell>
    decreases list.len(),
{
    if list.len() == 0 {
        Seq::empty()
    } else {
        let before = shown_cells(content, list.drop_last());
        let cell = list.last();
        match screen_place(content, cell.line as int, cell.column as int) {
            Some(row) => if cell.is_wide_char_spacer {
                before
            } else {
                before.push(
                    DrawnCell {
                        row,
                        column: cell.column as int,
                        symbol: seq![cell.character] + cell.zerowidth@,
                        style: cell_parts(cell),
                    },
                )
            },
            None => before,
        }
    }
}

/// Where the cursor is drawn.
pub open spec fn cursor_place(content: Content) -> Option<(int, int)> {
    if !content.show_cursor || content.cursor_hidden || !content.scrolled_to_bottom {
        None
    } else {
        match screen_place(content, content.cursor_line as int, content.cursor_column as int) {
            Some(row) => Some((row, content.cursor_column as int)),
            None => None,
        }
    }
}

/// A text without control characters.
pub open spec fn printable(s: Seq<char>) -> Seq<char>
    decreases s.len(),
{
    if s.len() == 0 {
        s
    } else if control(s.last()) {
        printable(s.drop_last())
    } else {
        printable(s.drop_last()).push(s.last())
    }
}

/// A title that a shell set, short and without control characters.
pub open spec fn short_title(title: Seq<char>) -> Seq<char> {
    let text = first_rows(printable(title), TITLE_CHARS as int);
    if text.len() == 0 {
        "shell"@
    } else {
        text
    }
}

/// How a task stands, in words.
pub open spec fn status_words(task: Option<TaskStatus>) -> Seq<char> {
    match task {
        None => Seq::empty(),
        Some(TaskStatus::Unknown) => " \u{b7} unknown"@,
        Some(TaskStatus::Running) => " \u{b7} running"@,
        Some(TaskStatus::Completed { success }) => if success {
            " \u{b7} passed"@
        } else {
            " \u{b7} failed"@
        },
    }
}

/// The title of a terminal.
pub open spec fn terminal_title(
    number: int,
    title: Seq<char>,
    task: Option<TaskStatus>,
    scrolled_to_bottom: bool,
) -> Seq<char> {
    " Terminal "@ + decimal(number as nat) + " \u{b7} "@ + short_title(title) + status_words(task)
        + (if scrolled_to_bottom {
        Seq::empty()
    } else {
        " \u{b7} scrollback"@
    }) + " "@
}

/// A title that a shell set, short and without control characters.
pub fn bounded_title(title: &str) -> (result: String)
    ensures
        result@ == short_title(title@),
{
    let chars = chars_of(title);
    let mut result = String::new();
    let mut count: usize = 0;
    let mut i: usize = 0;
    assert(chars@.take(0) =~= Seq::<char>::empty());
    assert(result@ =~= first_rows(printable(chars@.take(0)), TITLE_CHARS as int));
    while i < chars.len()
        invariant
            i <= chars@.len(),
            chars@ == title@,
            count == result@.len(),
            result@ == first_rows(printable(chars@.take(i as int)), TITLE_CHARS as int),
        decreases chars@.len() - i,
    {
        let ghost all = printable(chars@.take(i as int));
        let c = chars[i];
        assert(chars@.take(i + 1).drop_last() =~= chars@.take(i as int));
        if !is_control(c) {
            if count < TITLE_CHARS {
                result.push(c);
                count += 1;
                assert(first_rows(all.push(c), TITLE_CHARS as int) =~= first_rows(
                    all,
                    TITLE_CHARS as int,
                ).push(c));
            } else {
                assert(first_rows(all.push(c), TITLE_CHARS as int) =~= first_rows(
                    all,
                    TITLE_CHARS as int,
                ));
            }
        }
        i += 1;
    }
    assert(chars@.take(i as int) =~= chars@);
    if count == 0 {
        "shell".to_string()
    } else {
        result
    }
}

fn place_row(content: &Content, line: i32, column: usize) -> (row: Option<usize>)
    ensures
        match row {
            Some(row) => screen_place(*content, line as int, column as int) == Some(row as int),
            None => screen_place(*content, line as int, column as int) is None,
        },
{
    let first: i64 = if content.cells.len() == 0 {
        content.cursor_line as i64
    } else {
        content.cells[0].line as i64
    };
    let distance: i64 = line as i64 - first;
    if distance < 0 {
        return None;
    }
    let row: usize = if distance > i32::MAX as i64 {
        i32::MAX as usize
    } else {
        distance as usize
    };
    if row < content.screen_lines && column < content.columns {
        Some(row)
    } else {
        None
    }
}

fn symbol_of(cell: &Cell) -> (symbol: String)
    ensures
        symbol@ == seq![cell.character] + cell.zerowidth@,
{
    let mut symbol = String::new();
    symbol.push(cell.character);
    let mut i: usize = 0;
    assert(symbol@ =~= seq![cell.character] + cell.zerowidth@.take(0));
    while i < cell.zerowidth.len()
        invariant
            i <= cell.zerowidth@.len(),
            symbol@ == seq![cell.character] + cell.zerowidth@.take(i as int),
        decreases cell.zerowidth@.len() - i,
    {
        symbol.push(cell.zerowidth[i]);
        assert(seq![cell.character] + cell.zerowidth@.take(i + 1) =~= (seq![cell.character]
            + cell.zerowidth@.take(i as int)).push(cell.zerowidth@[i as int]));
        i += 1;
    }
    assert(cell.zerowidth@.take(i as int) =~= cell.zerowidth@);
    symbol
}

/// Where the cursor is drawn.
pub fn terminal_cursor(content: &Content) -> (cursor: Option<(usize, usize)>)
    ensures
        match cursor {
            Some((row, column)) => cursor_place(*content) == Some((row as int, column as int)),
            None => cursor_place(*content) is None,
        },
{
    if !content.show_cursor || content.cursor_hidden || !content.scrolled_to_bottom {
        return None;
    }
    match place_row(content, content.cursor_line, content.cursor_column) {
        Some(row) => Some((row, content.cursor_column)),
        None => None,
    }
}

/// A terminal as it is drawn.
pub fn capture(content: &Content, number: usize, title: &str, task: Option<TaskStatus>) -> (snapshot:
    TerminalPanelSnapshot)
    ensures
        snapshot.title@ == terminal_title(
            number as int,
            title@,
            task,
            content.scrolled_to_bottom,
        ),
        drawn_cells(snapshot.cells@) == shown_cells(*content, content.cells@),
        match snapshot.cursor {
            Some((row, column)) => cursor_place(*content) == Some((row as int, column as int)),
            None => cursor_place(*content) is None,
        },
{
    let mut cells: Vec<TerminalCell> = Vec::new();
    let mut i: usize = 0;
    assert(content.cells@.take(0) =~= Seq::<Cell>::empty());
    assert(drawn_cells(cells@) =~= Seq::<DrawnCell>::empty());
    while i < content.cells.len()
        invariant
            i <= content.cells@.len(),
            drawn_cells(cells@) == shown_cells(*content, content.cells@.take(i as int)),
        decreases content.cells@.len() - i,
    {
        let cell = &content.cells[i];
        let ghost before = cells@;
        assert(content.cells@.take(i + 1).drop_last() =~= content.cells@.take(i as int));
        if !cell.is_wide_char_spacer {
            if let Some(row) = place_row(content, cell.line, cell.column) {
                let drawn = TerminalCell {
                    row,
                    column: cell.column,
                    symbol: symbol_of(cell),
                    style: cell_style(cell),
                };
                cells.push(drawn);
                assert(drawn_cells(cells@) =~= drawn_cells(before).push(drawn@));
            }
        }
        i += 1;
    }
    assert(content.cells@.take(i as int) =~= content.cells@);
    let mut text = " Terminal ".to_string();
    push_decimal(&mut text, number as u64);
    text.append(" \u{b7} ");
    text.append(bounded_title(title).as_str());
    let ghost front = text@;
    match task {
        None => {
            assert(front + status_words(task) =~= text@);
        },
        Some(TaskStatus::Unknown) => text.append(" \u{b7} unknown"),
        Some(TaskStatus::Running) => text.append(" \u{b7} running"),
        Some(TaskStatus::Completed { success }) => if success {
            text.append(" \u{b7} passed")
        } else {
            text.append(" \u{b7} failed")
        },
    }
    assert(text@ =~= front + status_words(task));
    let ghost middle = text@;
    if !content.scrolled_to_bottom {
        text.append(" \u{b7} scrollback");
    } else {
        assert(middle + Seq::<char>::empty() =~= text@);
    }
    text.append(" ");
    TerminalPanelSnapshot { title: text, cells, cursor: terminal_cursor(content) }
}

/// Whatever is done, the active terminal is one of those that there are, and
/// the number of a terminal that was closed is never given again.
pub proof fn terminals_stay_valid(panel: Slots, entity_id: u64, forward: bool)
    requires
        panel.valid(),
        panel.opened < usize::MAX,
        0 <= panel.opened,
    ensures
        panel.adopted(entity_id).valid(),
        panel.adopted(entity_id).number() == Some((panel.opened + 1) as usize),
        forall|i: int|
            0 <= i < panel.slots.len() ==> (#[trigger] panel.slots[i]).number < panel.opened + 1,
        panel.stepped(forward).valid(),
        panel.without(entity_id).valid(),
        panel.without(entity_id).opened == panel.opened,
{
    lemma_slot_of(panel.slots, entity_id);
    let count = panel.slots.len() as int;
    if count > 1 {
        assert(0 <= (panel.active + 1) % count < count) by (nonlinear_arith)
            requires
                count > 0,
        ;
        assert(0 <= (panel.active + count - 1) % count < count) by (nonlinear_arith)
            requires
                count > 0,
        ;
    }
    let after = panel.without(entity_id);
    if let Some(index) = slot_of(panel.slots, entity_id) {
        assert forall|i: int, j: int| 0 <= i < j < after.slots.len() implies (
        #[trigger] after.slots[i]).number < (#[trigger] after.slots[j]).number by {
            let a = if i < index {
                i
            } else {
                i + 1
            };
            let b = if j < index {
                j
            } else {
                j + 1
            };
            assert(after.slots[i] == panel.slots[a] && after.slots[j] == panel.slots[b]);
        }
        assert forall|i: int| 0 <= i < after.slots.len() implies 0 < (
        #[trigger] after.slots[i]).number <= after.opened by {
            let a = if i < index {
                i
            } else {
                i + 1
            };
            assert(after.slots[i] == panel.slots[a]);
        }
    }
}

proof fn lemma_slot_of(slots: Seq<Slot>, entity_id: u64)
    ensures
        slot_of(slots, entity_id) matches Some(index) ==> 0 <= index < slots.len(),
    decreases slots.len(),
{
    if slots.len() > 0 {
        lemma_slot_of(slots.drop_last(), entity_id);
    }
}

/// The next terminal's previous one is the one to begin with.
pub proof fn stepping_back_undoes_a_step(panel: Slots, forward: bool)
    requires
        panel.valid(),
    ensures
        panel.stepped(forward).stepped(!forward) == panel,
{
    let count = panel.slots.len() as int;
    if count >= 2 {
        let active = panel.active;
        if forward {
            if active == count - 1 {
                assert((active + 1) % count == 0) by (nonlinear_arith)
                    requires
                        active + 1 == count,
                        count > 0,
                ;
                assert((0 + count - 1) % count == count - 1) by (nonlinear_arith)
                    requires
                        count > 0,
                ;
            } else {
                assert((active + 1) % count == active + 1) by (nonlinear_arith)
                    requires
                        0 <= active + 1 < count,
                ;
                assert((active + 1 + count - 1) % count == active) by (nonlinear_arith)
                    requires
                        0 <= active < count,
                ;
            }
        } else {
            if active == 0 {
                assert((active + count - 1) % count == count - 1) by (nonlinear_arith)
                    requires
                        active == 0,
                        count > 0,
                ;
                assert((count - 1 + 1) % count == 0) by (nonlinear_arith)
                    requires
                        count > 0,
                ;
            } else {
                assert((active + count - 1) % count == active - 1) by (nonlinear_arith)
                    requires
                        0 < active < count,
                ;
                assert((active - 1 + 1) % count == active) by (nonlinear_arith)
                    requires
                        0 < active < count,
                ;
            }
        }
    }
}

/// Every cell that is drawn lies on the screen.
pub proof fn cells_lie_on_the_screen(content: Content, list: Seq<Cell>)
    ensures
        forall|i: int|
            0 <= i < shown_cells(content, list).len() ==> {
                let cell = #[trigger] shown_cells(content, list)[i];
                0 <= cell.row < content.screen_lines && 0 <= cell.column < content.columns
            },
        cursor_place(content) matches Some((row, column)) ==> 0 <= row < content.screen_lines && 0
            <= column < content.columns,
    decreases list.len(),
{
    if list.len() > 0 {
        cells_lie_on_the_screen(content, list.drop_last());
    }
}

} // verus!
