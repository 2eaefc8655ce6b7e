//! Rectangles of terminal cells.

use vstd::prelude::*;

verus! {

/// The smaller of two numbers.
pub open spec fn least(a: int, b: int) -> int {
    if a <= b {
        a
    } else {
        b
    }
}

/// The larger of two numbers.
pub open spec fn greatest(a: int, b: int) -> int {
    if a <= b {
        b
    } else {
        a
    }
}

/// `n`, or zero where `n` is negative.
pub open spec fn above_zero(n: int) -> int {
    greatest(n, 0)
}

/// `n`, or the largest screen coordinate where `n` is beyond it.
pub open spec fn coordinate(n: int) -> int {
    least(n, u16::MAX as int)
}

/// `n`, or the largest machine word where `n` is beyond it.
pub open spec fn word(n: int) -> int {
    least(n, usize::MAX as int)
}

/// A terminal cell.
#[derive(Clone, Copy, Debug, PartialEq, Eq, Structural)]
pub struct Position {
    pub x: u16,
    pub y: u16,
}

/// A rectangle of terminal cells.
#[derive(Clone, Copy, Debug, PartialEq, Eq, Structural)]
pub struct Rect {
    pub x: u16,
    pub y: u16,
    pub width: u16,
    pub height: u16,
}

impl Rect {
    /// The column behind the rectangle.
    pub open spec fn spec_right(self) -> int {
        coordinate(self.x + self.width)
    }

    /// The row below the rectangle.
    pub open spec fn spec_bottom(self) -> int {
        coordinate(self.y + self.height)
    }

    /// The rectangle holds no cell.
    pub open spec fn spec_is_empty(self) -> bool {
        self.width == 0 || self.height == 0
    }

    /// The cell lies in the rectangle.
    pub open spec fn holds(self, x: int, y: int) -> bool {
        self.x <= x < self.spec_right() && self.y <= y < self.spec_bottom()
    }

    /// The rectangle, cut off at the last coordinate.
    pub open spec fn spec_new(x: u16, y: u16, width: u16, height: u16) -> Rect {
        Rect {
            x,
            y,
            width: (coordinate(x + width) - x) as u16,
            height: (coordinate(y + height) - y) as u16,
        }
    }

    /// What two rectangles share.
    pub open spec fn spec_intersection(self, other: Rect) -> Rect {
        let x = greatest(self.x as int, other.x as int);
        let y = greatest(self.y as int, other.y as int);
        Rect {
            x: x as u16,
            y: y as u16,
            width: above_zero(least(self.spec_right(), other.spec_right()) - x) as u16,
            height: above_zero(least(self.spec_bottom(), other.spec_bottom()) - y) as u16,
        }
    }

    /// The rectangle inside a border of one cell on each side.
    pub open spec fn spec_inside_border(self) -> Rect {
        Rect {
            x: least(coordinate(self.x + 1), self.spec_right()) as u16,
            y: least(coordinate(self.y + 1), self.spec_bottom()) as u16,
            width: above_zero(self.width - 2) as u16,
            height: above_zero(self.height - 2) as u16,
        }
    }

    /// A rectangle, cut off at the last coordinate.
    #[verifier::when_used_as_spec(spec_new)]
    pub fn new(x: u16, y: u16, width: u16, height: u16) -> (rect: Self)
        ensures
            rect == Rect::spec_new(x, y, width, height),
    {
        Rect { x, y, width: x.saturating_add(width) - x, height: y.saturating_add(height) - y }
    }

    /// The column behind the rectangle.
    pub fn right(&self) -> (right: u16)
        ensures
            right == self.spec_right(),
    {
        self.x.saturating_add(self.width)
    }

    /// The row below the rectangle.
    pub fn bottom(&self) -> (bottom: u16)
        ensures
            bottom == self.spec_bottom(),
    {
        self.y.saturating_add(self.height)
    }

    #[verifier::when_used_as_spec(spec_is_empty)]
    pub fn is_empty(self) -> (empty: bool)
        ensures
            empty == self.spec_is_empty(),
    {
        self.width == 0 || self.height == 0
    }

    /// Whether the cell lies in the rectangle.
    pub fn contains(&self, position: Position) -> (result: bool)
        ensures
            result == self.holds(position.x as int, position.y as int),
    {
        position.x >= self.x && position.x < self.right() && position.y >= self.y && position.y
            < self.bottom()
    }

    /// What two rectangles share.
    #[verifier::when_used_as_spec(spec_intersection)]
    pub fn intersection(self, other: Rect) -> (rect: Self)
        ensures
            rect == self.spec_intersection(other),
    {
        let x: u16 = if self.x <= other.x {
            other.x
        } else {
            self.x
        };
        let y: u16 = if self.y <= other.y {
            other.y
        } else {
            self.y
        };
        let right: u16 = if self.right() <= other.right() {
            self.right()
        } else {
            other.right()
        };
        let bottom: u16 = if self.bottom() <= other.bottom() {
            self.bottom()
        } else {
            other.bottom()
        };
        Rect { x, y, width: right.saturating_sub(x), height: bottom.saturating_sub(y) }
    }

    /// The rectangle inside a border of one cell on each side.
    #[verifier::when_used_as_spec(spec_inside_border)]
    pub fn inside_border(self) -> (rect: Self)
        ensures
            rect == self.spec_inside_border(),
    {
        let x: u16 = self.x.saturating_add(1);
        let y: u16 = self.y.saturating_add(1);
        Rect {
            x: if x <= self.right() {
                x
            } else {
                self.right()
            },
            y: if y <= self.bottom() {
                y
            } else {
                self.bottom()
            },
            width: self.width.saturating_sub(2),
            height: self.height.saturating_sub(2),
        }
    }
}

/// A cell lies in the intersection exactly where it lies in both rectangles.
pub proof fn intersection_holds_the_shared_cells(a: Rect, b: Rect, x: int, y: int)
    ensures
        a.spec_intersection(b).holds(x, y) == (a.holds(x, y) && b.holds(x, y)),
{
}

/// The inside of a border lies in the rectangle, off its edges.
pub proof fn border_surrounds_the_inside(rect: Rect, x: int, y: int)
    requires
        rect.spec_inside_border().holds(x, y),
        rect.x + rect.width <= u16::MAX,
        rect.y + rect.height <= u16::MAX,
    ensures
        rect.holds(x, y),
        rect.holds(x - 1, y - 1),
        rect.holds(x + 1, y + 1),
{
}

/// The number that is at most `limit`.
pub fn at_most(n: usize, limit: usize) -> (result: usize)
    ensures
        result == least(n as int, limit as int),
{
    if n <= limit {
        n
    } else {
        limit
    }
}

/// A machine word as a screen coordinate, or `fallback` where it is none.
pub fn coordinate_or(n: usize, fallback: u16) -> (result: u16)
    ensures
        result == (if n <= u16::MAX {
            n as int
        } else {
            fallback as int
        }),
{
    if n <= u16::MAX as usize {
        n as u16
    } else {
        fallback
    }
}

/// Where a window of `budget` rows starts in a list of `count` rows so that
/// the selected row is in it: as far up as that allows.
pub open spec fn window_start_of(count: int, selected: Option<int>, budget: int) -> int {
    match selected {
        Some(index) => least(above_zero(index + 1 - budget), above_zero(count - budget)),
        None => 0,
    }
}

/// Where a window of `budget` rows starts so that the selected row is in it.
pub fn window_start(count: usize, selected: Option<usize>, budget: usize) -> (first: usize)
    requires
        selected is Some ==> selected->0 < count,
    ensures
        first == window_start_of(
            count as int,
            match selected {
                Some(index) => Some(index as int),
                None => None,
            },
            budget as int,
        ),
{
    match selected {
        Some(index) => at_most((index + 1).saturating_sub(budget), count.saturating_sub(budget)),
        None => 0,
    }
}

/// The window shows the selected row, and no row past the end of the list as
/// long as the list fills it.
pub proof fn window_shows_the_selection(count: int, selected: Option<int>, budget: int)
    requires
        0 < budget,
        0 <= count,
        selected is Some ==> 0 <= selected->0 < count,
    ensures
        ({
            let first = window_start_of(count, selected, budget);
            &&& selected is Some ==> first <= selected->0 < first + budget
            &&& 0 <= first
            &&& budget <= count ==> first + budget <= count
            &&& count <= budget ==> first == 0
        }),
{
}

/// The first row of a window that has the selected row in its middle, where
/// the list is long enough.
pub open spec fn centered_start_of(count: int, selected: int, budget: int) -> int {
    least(above_zero(selected - budget / 2), above_zero(count - budget))
}

/// The first of `budget` rows to show of `count`, centered on one of them.
pub fn centered_start(count: usize, selected: usize, budget: usize) -> (first: usize)
    ensures
        first == centered_start_of(count as int, selected as int, budget as int),
{
    let lead: usize = selected.saturating_sub(budget / 2);
    let last: usize = count.saturating_sub(budget);
    at_most(lead, last)
}

/// A centered window lies within the list, shows as many rows as fit, and
/// holds the selected row.
pub proof fn centered_window_shows_the_selection(count: int, selected: int, budget: int)
    requires
        0 <= selected < count,
        0 < budget,
    ensures
        0 <= centered_start_of(count, selected, budget) <= selected,
        selected < centered_start_of(count, selected, budget) + budget,
        centered_start_of(count, selected, budget) + least(count, budget) <= count,
{
}

/// The row that lies `delta` rows from another, kept within the list.
pub open spec fn stepped(current: int, delta: int, count: int) -> int {
    least(above_zero(current + delta), count - 1)
}

/// Steps through the rows of a list and stops at its ends.
pub fn step_by(current: usize, delta: isize, count: usize) -> (next: usize)
    requires
        count > 0,
    ensures
        next == stepped(current as int, delta as int, count as int),
{
    let next: usize = if delta < 0 {
        if delta == isize::MIN {
            let far: usize = isize::MAX as usize;
            if current > far {
                current - far - 1
            } else {
                0
            }
        } else {
            current.saturating_sub((-delta) as usize)
        }
    } else {
        current.saturating_add(delta as usize)
    };
    at_most(next, count - 1)
}

/// A place in a document: a row, and a column counted in bytes.
#[derive(Clone, Copy, Debug, PartialEq, Eq, PartialOrd, Ord, Hash, Structural)]
pub struct Point {
    pub row: u32,
    pub column: u32,
}

impl Point {
    /// Whether a place lies before another or is the same.
    pub open spec fn reaches(self, other: Point) -> bool {
        self.row < other.row || self.row == other.row && self.column <= other.column
    }

    pub fn new(row: u32, column: u32) -> (point: Self)
        ensures
            point == (Point { row, column }),
    {
        Point { row, column }
    }

    /// Whether this place lies before `other` or is the same.
    pub fn at_or_before(&self, other: &Point) -> (result: bool)
        ensures
            result == self.reaches(*other),
    {
        self.row < other.row || self.row == other.row && self.column <= other.column
    }
}

/// The numbers from `from` up to `to` that are kept, in order.
pub open spec fn kept(from: int, to: int, keep: spec_fn(int) -> bool) -> Seq<int>
    decreases to - from,
{
    if from >= to {
        Seq::empty()
    } else if keep(to - 1) {
        kept(from, to - 1, keep).push(to - 1)
    } else {
        kept(from, to - 1, keep)
    }
}

/// The same list, built from its front.
pub proof fn lemma_kept_front(from: int, to: int, keep: spec_fn(int) -> bool)
    requires
        from < to,
    ensures
        kept(from, to, keep) == (if keep(from) {
            seq![from]
        } else {
            Seq::<int>::empty()
        }) + kept(from + 1, to, keep),
    decreases to - from,
{
    if from + 1 < to {
        lemma_kept_front(from, to - 1, keep);
    } else {
        reveal_with_fuel(kept, 2);
    }
    assert(kept(from, to, keep) =~= (if keep(from) {
        seq![from]
    } else {
        Seq::<int>::empty()
    }) + kept(from + 1, to, keep));
}

/// What the list of kept numbers holds: each kept number once, in order.
pub proof fn lemma_kept(from: int, to: int, keep: spec_fn(int) -> bool)
    ensures
        forall|i: int|
            0 <= i < kept(from, to, keep).len() ==> from <= #[trigger] kept(from, to, keep)[i] < to
                && keep(kept(from, to, keep)[i]),
        forall|i: int, j: int|
            0 <= i < j < kept(from, to, keep).len() ==> kept(from, to, keep)[i] < kept(
                from,
                to,
                keep,
            )[j],
        forall|n: int| from <= n < to && keep(n) ==> #[trigger] kept(from, to, keep).contains(n),
        from <= to ==> kept(from, to, keep).len() <= to - from,
    decreases to - from,
{
    if from < to {
        lemma_kept(from, to - 1, keep);
        let front = kept(from, to - 1, keep);
        let all = kept(from, to, keep);
        assert forall|n: int| from <= n < to && keep(n) implies #[trigger] all.contains(n) by {
            if n < to - 1 {
                assert(front.contains(n));
                let i = choose|i: int| 0 <= i < front.len() && front[i] == n;
                assert(all[i] == n);
            } else {
                assert(all[all.len() - 1] == n);
            }
        }
    }
}

/// Lists kept for the same reason hold the same numbers.
pub proof fn lemma_kept_same(
    from: int,
    to: int,
    keep: spec_fn(int) -> bool,
    other: spec_fn(int) -> bool,
)
    requires
        forall|n: int| from <= n < to ==> #[trigger] keep(n) == other(n),
    ensures
        kept(from, to, keep) == kept(from, to, other),
    decreases to - from,
{
    if from < to {
        assert(keep(to - 1) == other(to - 1));
        lemma_kept_same(from, to - 1, keep, other);
    }
}

/// Numbers that are not kept at the front do not count.
pub proof fn lemma_kept_skip(from: int, middle: int, to: int, keep: spec_fn(int) -> bool)
    requires
        from <= middle <= to,
        forall|n: int| from <= n < middle ==> !#[trigger] keep(n),
    ensures
        kept(from, to, keep) == kept(middle, to, keep),
    decreases middle - from,
{
    if from < middle {
        lemma_kept_front(from, to, keep);
        lemma_kept_skip(from + 1, middle, to, keep);
        assert(!keep(from));
        assert(Seq::<int>::empty() + kept(from + 1, to, keep) =~= kept(from + 1, to, keep));
    }
}

/// The numbers that a list of indices holds.
pub open spec fn numbers(list: Seq<usize>) -> Seq<int> {
    Seq::new(list.len(), |i: int| list[i] as int)
}

} // verus!
