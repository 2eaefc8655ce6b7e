//! Lists that are shown over the document: menus, pickers, and panels.

use vstd::prelude::*;
use vstd::string::*;

use crate::render::{OverlayRow, OverlaySnapshot};

verus! {

/// The plain values of an [`OverlayRow`].
pub struct RowText {
    pub text: Seq<char>,
    pub enabled: bool,
}

impl View for OverlayRow {
    type V = RowText;

    open spec fn view(&self) -> RowText {
        RowText { text: self.text@, enabled: self.enabled }
    }
}

/// The plain values of some rows.
pub open spec fn row_texts(rows: Seq<OverlayRow>) -> Seq<RowText> {
    Seq::new(rows.len(), |i: int| rows[i]@)
}

/// The plain values of an [`OverlaySnapshot`].
pub struct OverlayView {
    pub title: Seq<char>,
    pub rows: Seq<RowText>,
    pub selected: Option<usize>,
}

impl View for OverlaySnapshot {
    type V = OverlayView;

    open spec fn view(&self) -> OverlayView {
        OverlayView { title: self.title@, rows: row_texts(self.rows@), selected: self.selected }
    }
}

/// A row of text.
pub open spec fn row(text: Seq<char>, enabled: bool) -> RowText {
    RowText { text, enabled }
}

/// Adds a row at the end.
pub fn push_row(rows: &mut Vec<OverlayRow>, text: String, enabled: bool)
    ensures
        row_texts(final(rows)@) == row_texts(old(rows)@).push(row(text@, enabled)),
{
    rows.push(OverlayRow { text, enabled });
    assert(row_texts(rows@) =~= row_texts(old(rows)@).push(row(text@, enabled)));
}

} // verus!
