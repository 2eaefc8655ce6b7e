//! Laws of rectangles, windows and places.

use vstd::prelude::*;

use crate::geometry::{centered_start_of, stepped, window_start_of, Point, Rect};

verus! {

/// A window moves no further than it has to: no window that starts earlier
/// shows the selection, and without a selection it does not move at all.
pub proof fn windows_move_no_further_than_needed(count: int, selected: Option<int>, budget: int, start: int)
    requires
        0 < budget,
        0 <= start,
        selected is Some ==> 0 <= selected->0 < count,
        selected is Some ==> start <= selected->0 < start + budget,
    ensures
        window_start_of(count, selected, budget) <= start,
        selected is None ==> window_start_of(count, selected, budget) == 0,
{
}

/// A centered window has the selection in its middle, but for the ends of the
/// list: there it shows the first rows, or the last.
pub proof fn centered_windows_have_the_selection_in_the_middle(count: int, selected: int, budget: int)
    requires
        0 <= selected < count,
        0 < budget,
    ensures
        ({
            let first = centered_start_of(count, selected, budget);
            let half = budget / 2;
            &&& half <= selected && selected - half + budget <= count ==> selected - first == half
            &&& selected - first < half ==> first == 0
            &&& selected - first > half ==> first + budget == count || first == 0 && count <= budget
        }),
{
}

/// A step goes as far as it says, and stops at either end.
pub proof fn steps_stop_at_the_ends(current: int, delta: int, count: int)
    requires
        0 <= current < count,
    ensures
        0 <= stepped(current, delta, count) < count,
        0 <= current + delta < count ==> stepped(current, delta, count) - current == delta,
        current + delta < 0 ==> stepped(current, delta, count) == 0,
        current + delta >= count ==> stepped(current, delta, count) == count - 1,
{
}

/// A rectangle holds the cells from its corner on, as many in a row and as
/// many rows as it is wide and high.
pub proof fn rectangles_hold_their_cells(x: u16, y: u16, width: u16, height: u16, across: int, down: int)
    requires
        x + width <= u16::MAX,
        y + height <= u16::MAX,
    ensures
        ({
            let rect = Rect::spec_new(x, y, width, height);
            &&& rect == Rect { x, y, width, height }
            &&& rect.holds(x + across, y + down) <==> 0 <= across < width && 0 <= down < height
            &&& rect.spec_right() - x == width
            &&& rect.spec_bottom() - y == height
            &&& rect.spec_is_empty() <==> (forall|a: int, b: int| !#[trigger] rect.holds(a, b))
        }),
{
    let rect = Rect::spec_new(x, y, width, height);
    if !rect.spec_is_empty() {
        assert(rect.holds(x as int, y as int));
    }
}

/// A rectangle that would reach past the last coordinate ends there.
pub proof fn rectangles_end_at_the_last_coordinate(x: u16, y: u16, width: u16, height: u16)
    ensures
        ({
            let rect = Rect::spec_new(x, y, width, height);
            &&& rect.x == x && rect.y == y
            &&& rect.width <= width && rect.height <= height
            &&& rect.x + rect.width <= u16::MAX && rect.y + rect.height <= u16::MAX
            &&& rect.width < width ==> rect.x + rect.width == u16::MAX
            &&& rect.height < height ==> rect.y + rect.height == u16::MAX
        }),
{
}

/// What lies inside a border are the cells with a cell of the rectangle on
/// every side, the corners too.
pub proof fn the_inside_is_what_the_border_surrounds(rect: Rect, x: int, y: int)
    requires
        rect.x + rect.width <= u16::MAX,
        rect.y + rect.height <= u16::MAX,
    ensures
        rect.spec_inside_border().holds(x, y) <==> rect.holds(x - 1, y - 1) && rect.holds(
            x + 1,
            y + 1,
        ),
{
}

/// Places are ordered by their rows, and in a row by their columns.
pub proof fn places_are_ordered_by_row_and_column(a: Point, b: Point, c: Point)
    ensures
        a.reaches(b) || b.reaches(a),
        a.reaches(b) && b.reaches(a) ==> a == b,
        a.reaches(b) && b.reaches(c) ==> a.reaches(c),
        a.row < b.row ==> a.reaches(b) && !b.reaches(a),
        a.row == b.row && a.column < b.column ==> a.reaches(b) && !b.reaches(a),
{
}

} // verus!
