//! The panel of the symbols of the active document. It keeps the selection
//! alone; the symbols are read anew each time.

use vstd::prelude::*;
use vstd::string::*;

use crate::features::context::{Command, Outcome, PanelOutcome};
use crate::geometry::{above_zero, at_most, least, window_start, window_start_of, Point};
use crate::outline_panel::{indent, indentation};
use crate::overlay::{push_row, row, row_texts, RowText};
use crate::render::{OverlayRow, OverlaySnapshot};

verus! {

broadcast use vstd::string::group_string_axioms;

/// The key context of this panel's own bindings.
pub const KEY_CONTEXT: &'static str = "zec_outline_panel";

/// A symbol of a document.
#[derive(Debug)]
pub struct Symbol {
    pub depth: usize,
    pub text: String,
    pub point: Point,
}

/// The selection of the panel.
pub struct Marked {
    pub selected: int,
    /// The buffer that the selection belongs to.
    pub buffer: Option<u64>,
    /// The first row that the last frame showed.
    pub first_row: int,
}

impl Marked {
    /// The selection among the symbols of a buffer: another buffer starts at
    /// the top.
    pub open spec fn within(self, buffer: Option<u64>) -> Marked {
        if buffer is None || self.buffer == buffer {
            self
        } else {
            Marked { selected: 0, buffer, ..self }
        }
    }

    /// The selection once a command has run over that many symbols.
    pub open spec fn after(self, command: Command, count: int) -> Marked {
        match command {
            Command::PanelSelectNext | Command::PanelExpand => if self.selected + 1 < count {
                Marked { selected: self.selected + 1, ..self }
            } else {
                self
            },
            Command::PanelSelectPrevious | Command::PanelCollapse => Marked {
                selected: above_zero(self.selected - 1),
                ..self
            },
            _ => self,
        }
    }

    /// The row that is marked among that many.
    pub open spec fn marked(self, count: int) -> Option<int> {
        if count == 0 {
            None
        } else {
            Some(least(self.selected, count - 1))
        }
    }
}

/// The row of a symbol.
pub open spec fn symbol_row(symbol: Symbol) -> RowText {
    row(indent(symbol.depth as int) + symbol.text@, true)
}

/// The rows of some symbols.
pub open spec fn symbol_rows(list: Seq<Symbol>) -> Seq<RowText> {
    Seq::new(list.len(), |i: int| symbol_row(list[i]))
}

/// The panel of the symbols of the active document.
#[derive(Debug)]
pub struct OutlinePanel {
    selected: usize,
    buffer: Option<u64>,
    first_row: usize,
}

impl OutlinePanel {
    pub closed spec fn state(&self) -> Marked {
        Marked {
            selected: self.selected as int,
            buffer: self.buffer,
            first_row: self.first_row as int,
        }
    }
}

impl Default for OutlinePanel {
    fn default() -> (panel: Self)
        ensures
            panel.state() == (Marked { selected: 0, buffer: None, first_row: 0 }),
    {
        OutlinePanel { selected: 0, buffer: None, first_row: 0 }
    }
}

impl OutlinePanel {
    fn enter(&mut self, buffer: Option<u64>)
        ensures
            final(self).state() == old(self).state().within(buffer),
    {
        if buffer.is_some() && self.buffer != buffer {
            self.buffer = buffer;
            self.selected = 0;
        }
    }

    /// Runs a command over the symbols of a buffer.
    pub fn execute(&mut self, command: Command, buffer: Option<u64>, symbols: &Vec<Symbol>) -> (
        outcome: PanelOutcome)
        ensures
            final(self).state() == old(self).state().within(buffer).after(command, symbols@.len() as int),
            ({
                let selected = old(self).state().within(buffer).selected;
                outcome@ == if command == Command::PanelActivate && selected < symbols@.len() {
                    Outcome::Jump {
                        point: symbols@[selected].point,
                        label: symbols@[selected].text@,
                    }
                } else {
                    Outcome::Consumed
                }
            }),
    {
        self.enter(buffer);
        match command {
            Command::PanelSelectNext | Command::PanelExpand => {
                if symbols.len() > 0 && self.selected < symbols.len() - 1 {
                    self.selected += 1;
                }
            },
            Command::PanelSelectPrevious | Command::PanelCollapse => {
                self.selected = self.selected.saturating_sub(1);
            },
            Command::PanelActivate => {
                if self.selected < symbols.len() {
                    let symbol = &symbols[self.selected];
                    return PanelOutcome::Jump { point: symbol.point, label: symbol.text.clone() };
                }
            },
            _ => {},
        }
        PanelOutcome::Consumed
    }

    /// The rows to draw, with the first of those that fit.
    pub fn view(
        &mut self,
        label: &str,
        buffer: Option<u64>,
        symbols: &Vec<Symbol>,
        row_budget: usize,
    ) -> (snapshot: OverlaySnapshot)
        ensures
            ({
                let marked = old(self).state().within(buffer);
                let selected = marked.marked(symbols@.len() as int);
                &&& final(self).state() == (Marked {
                    first_row: window_start_of(
                        symbols@.len() as int,
                        selected,
                        row_budget as int,
                    ),
                    ..marked
                })
                &&& snapshot@.title == " Outline "@ + label@ + " "@
                &&& snapshot@.rows == symbol_rows(symbols@)
                &&& match snapshot@.selected {
                    Some(index) => selected == Some(index as int),
                    None => selected is None,
                }
            }),
    {
        self.enter(buffer);
        let selected: Option<usize> = if symbols.len() == 0 {
            None
        } else {
            Some(at_most(self.selected, symbols.len() - 1))
        };
        self.first_row = window_start(symbols.len(), selected, row_budget);
        let mut title = " Outline ".to_string();
        title.append(label);
        title.append(" ");
        let mut rows: Vec<OverlayRow> = Vec::new();
        let mut i: usize = 0;
        while i < symbols.len()
            invariant
                i <= symbols@.len(),
                row_texts(rows@) =~= symbol_rows(symbols@).take(i as int),
            decreases symbols@.len() - i,
        {
            let mut text = indentation(symbols[i].depth);
            text.append(symbols[i].text.as_str());
            push_row(&mut rows, text, true);
            i += 1;
        }
        OverlaySnapshot { title, rows, selected }
    }

    /// A click on a row of the panel selects the symbol there.
    pub fn click(&mut self, screen_row: usize, buffer: Option<u64>, count: usize)
        ensures
            ({
                let marked = old(self).state().within(buffer);
                let index = marked.first_row + screen_row;
                final(self).state() == if index < count {
                    Marked { selected: index, ..marked }
                } else {
                    marked
                }
            }),
    {
        self.enter(buffer);
        if self.first_row < count && screen_row < count - self.first_row {
            self.selected = self.first_row + screen_row;
        }
    }
}

/// The row that is marked is one of those, and of those that fit.
pub proof fn the_marked_row_is_shown(marked: Marked, buffer: Option<u64>, count: int, budget: int)
    requires
        0 < budget,
        0 < count,
        0 <= marked.selected,
    ensures
        ({
            let selected = marked.within(buffer).marked(count);
            let first = window_start_of(count, selected, budget);
            selected is Some && 0 <= selected->0 < count && first <= selected->0 < first + budget
        }),
{
}

} // verus!
