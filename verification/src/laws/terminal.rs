//! Laws of terminals.

use vstd::prelude::*;

use crate::features::terminal_panel::{
    cell_parts, cursor_place, first_line, host_color, named_host, printable, short_title,
    shown_cells, slot_of, status_words, terminal_title, Cell, CellColor, Content, NamedColor, Slot,
    Slots, TaskStatus, TITLE_CHARS,
};
use crate::paint::{
    color_number, HostColor, BOLD, CROSSED_OUT, DIM, ITALIC, REVERSED, UNDERLINED,
};
use crate::text::{control, decimal, ends, starts};

verus! {

/// A terminal that is opened stands behind all others, with the next number,
/// and is the active one.
pub proof fn opened_terminals_come_last(panel: Slots, entity_id: u64)
    requires
        0 <= panel.opened < usize::MAX,
    ensures
        ({
            let next = panel.adopted(entity_id);
            let count = panel.slots.len();
            &&& next.slots.len() == count + 1
            &&& forall|i: int| 0 <= i < count ==> #[trigger] next.slots[i] == panel.slots[i]
            &&& next.slots[count as int].entity_id == entity_id
            &&& next.slots[count as int].number == panel.opened + 1
            &&& next.active == count
            &&& next.opened == panel.opened + 1
        }),
{
}

/// Stepping goes from each terminal to the next, and from the last to the
/// first; backwards it is the other way round.
pub proof fn stepping_goes_round(panel: Slots, forward: bool)
    requires
        panel.valid(),
        panel.slots.len() > 1,
    ensures
        ({
            let next = panel.stepped(forward);
            let last = panel.slots.len() - 1;
            &&& next.slots == panel.slots && next.opened == panel.opened
            &&& forward && panel.active < last ==> next.active == panel.active + 1
            &&& forward && panel.active == last ==> next.active == 0
            &&& !forward && panel.active > 0 ==> next.active == panel.active - 1
            &&& !forward && panel.active == 0 ==> next.active == last
        }),
{
    let count = panel.slots.len() as int;
    if forward {
        if panel.active + 1 < count {
            vstd::arithmetic::div_mod::lemma_small_mod((panel.active + 1) as nat, count as nat);
        } else {
            vstd::arithmetic::div_mod::lemma_mod_self_0(count);
        }
    } else if panel.active > 0 {
        vstd::arithmetic::div_mod::lemma_mod_add_multiples_vanish(panel.active - 1, count);
        vstd::arithmetic::div_mod::lemma_small_mod((panel.active - 1) as nat, count as nat);
        assert(panel.active + count - 1 == count + (panel.active - 1));
    } else {
        vstd::arithmetic::div_mod::lemma_small_mod((count - 1) as nat, count as nat);
    }
}

proof fn lemma_slot_of(slots: Seq<Slot>, entity_id: u64)
    ensures
        match slot_of(slots, entity_id) {
            Some(i) => 0 <= i < slots.len() && slots[i].entity_id == entity_id && forall|j: int|
                0 <= j < i ==> (#[trigger] slots[j]).entity_id != entity_id,
            None => forall|j: int|
                0 <= j < slots.len() ==> (#[trigger] slots[j]).entity_id != entity_id,
        },
    decreases slots.len(),
{
    if slots.len() > 0 {
        let front = slots.drop_last();
        lemma_slot_of(front, entity_id);
        assert forall|j: int| 0 <= j < front.len() implies #[trigger] slots[j] == front[j] by {}
    }
}

/// A terminal that closes is taken out and the others stay in their order;
/// the place of the active one stays, unless it was the last. What is not
/// there changes nothing.
pub proof fn closed_terminals_are_taken_out(panel: Slots, index: int)
    requires
        panel.valid(),
        0 <= index < panel.slots.len(),
        forall|j: int|
            0 <= j < panel.slots.len() && j != index ==> (#[trigger] panel.slots[j]).entity_id
                != panel.slots[index].entity_id,
    ensures
        ({
            let next = panel.without(panel.slots[index].entity_id);
            &&& next.slots == panel.slots.take(index) + panel.slots.skip(index + 1)
            &&& next.opened == panel.opened
            &&& panel.active < next.slots.len() ==> next.active == panel.active
            &&& panel.active >= next.slots.len() && next.slots.len() > 0 ==> next.active
                == next.slots.len() - 1
            &&& next.slots.len() == 0 ==> next.active == 0
        }),
        forall|entity_id: u64|
            (forall|j: int|
                0 <= j < panel.slots.len() ==> (#[trigger] panel.slots[j]).entity_id != entity_id)
                ==> #[trigger] panel.without(entity_id) == panel,
{
    let id = panel.slots[index].entity_id;
    lemma_slot_of(panel.slots, id);
    let found = slot_of(panel.slots, id);
    assert(found == Some(index));
    assert(panel.slots.remove(index) =~= panel.slots.take(index) + panel.slots.skip(index + 1));
    assert forall|entity_id: u64|
        (forall|j: int|
            0 <= j < panel.slots.len() ==> (#[trigger] panel.slots[j]).entity_id
                != entity_id) implies #[trigger] panel.without(entity_id) == panel by {
        lemma_slot_of(panel.slots, entity_id);
    }
}

/// A cell that can be seen: on the screen, and not the second half of a wide
/// character.
pub open spec fn can_be_seen(content: Content, cell: Cell) -> bool {
    let first = first_line(content);
    &&& first <= cell.line
    &&& cell.line - first < content.screen_lines
    &&& cell.column < content.columns
    &&& !cell.is_wide_char_spacer
}

/// The cells that can be seen.
pub open spec fn seen(content: Content, list: Seq<Cell>) -> Seq<Cell> {
    list.filter(|cell: Cell| can_be_seen(content, cell))
}

/// The cells that can be seen are shown, in order, each on its row, counted
/// from the first line, and in its column, with its character and what
/// combines with it.
pub proof fn cells_are_shown_where_they_are(content: Content, list: Seq<Cell>, k: int)
    requires
        forall|i: int|
            0 <= i < list.len() ==> (#[trigger] list[i]).line - first_line(content) <= i32::MAX,
    ensures
        shown_cells(content, list).len() == seen(content, list).len(),
        0 <= k < seen(content, list).len() ==> {
            let shown = shown_cells(content, list)[k];
            let cell = seen(content, list)[k];
            &&& shown.row == cell.line - first_line(content)
            &&& shown.column == cell.column
            &&& shown.symbol.len() == 1 + cell.zerowidth@.len()
            &&& shown.symbol[0] == cell.character
            &&& shown.symbol.skip(1) == cell.zerowidth@
            &&& shown.style == cell_parts(cell)
        },
    decreases list.len(),
{
    reveal(Seq::filter);
    if list.len() > 0 {
        let front = list.drop_last();
        let cell = list.last();
        cells_are_shown_where_they_are(content, front, k);
        assert(list[list.len() - 1].line - first_line(content) <= i32::MAX);
        assert((seq![cell.character] + cell.zerowidth@).skip(1) =~= cell.zerowidth@);
        assert(seen(content, list) == if can_be_seen(content, cell) {
            seen(content, front).push(cell)
        } else {
            seen(content, front)
        });
    }
}

/// The cursor is shown where it is, as long as the program shows it and the
/// newest lines are on the screen.
pub proof fn the_cursor_is_shown_where_it_is(content: Content)
    requires
        content.cursor_line - first_line(content) <= i32::MAX,
    ensures
        cursor_place(content) is Some <==> {
            &&& content.show_cursor && !content.cursor_hidden && content.scrolled_to_bottom
            &&& first_line(content) <= content.cursor_line
            &&& content.cursor_line - first_line(content) < content.screen_lines
            &&& content.cursor_column < content.columns
        },
        cursor_place(content) matches Some((row, column)) ==> row == content.cursor_line
            - first_line(content) && column == content.cursor_column,
{
}

/// The number of a color, if there is one.
pub open spec fn wished(color: Option<HostColor>) -> Option<int> {
    match color {
        Some(color) => Some(color_number(color)),
        None => None,
    }
}

/// A cell is painted in its own colors, or with the two exchanged where it is
/// inverse.
pub proof fn cells_have_their_own_colors(cell: Cell)
    ensures
        cell_parts(cell).fg == wished(
            host_color(
                if cell.is_inverse {
                    cell.background
                } else {
                    cell.foreground
                },
                true,
            ),
        ),
        cell_parts(cell).bg == wished(
            host_color(
                if cell.is_inverse {
                    cell.foreground
                } else {
                    cell.background
                },
                false,
            ),
        ),
        cell_parts(cell).underline is None,
        cell_parts(cell).removed == 0,
{
    assert(forall|bits: u16| #[trigger] (0u16 & !bits) == 0u16) by (bit_vector);
}

/// The bit of a modifier, where it is on.
pub open spec fn bit(on: bool, bits: u16) -> u16 {
    if on {
        bits
    } else {
        0
    }
}

/// A cell has the modifiers that it asks for: an undercurl is an underline, and
/// what is selected is reversed.
pub proof fn cells_have_their_own_modifiers(cell: Cell)
    ensures
        ({
            let added = cell_parts(cell).added;
            &&& (added & BOLD == BOLD) <==> cell.is_bold
            &&& (added & DIM == DIM) <==> cell.is_dim
            &&& (added & ITALIC == ITALIC) <==> cell.is_italic
            &&& (added & UNDERLINED == UNDERLINED) <==> cell.has_underline || cell.has_undercurl
            &&& (added & CROSSED_OUT == CROSSED_OUT) <==> cell.has_strikeout
            &&& (added & REVERSED == REVERSED) <==> cell.selected
        }),
{
    let a = bit(cell.is_bold, 0x01);
    let b = bit(cell.is_dim, 0x02);
    let c = bit(cell.is_italic, 0x04);
    let d = bit(cell.has_underline || cell.has_undercurl, 0x08);
    let e = bit(cell.has_strikeout, 0x100);
    let f = bit(cell.selected, 0x40);
    let added = cell_parts(cell).added;
    assert(forall|bits: u16| #[trigger] (bits | 0u16) == bits) by (bit_vector);
    assert(added == (((((0u16 | a) | b) | c) | d) | e) | f);
    assert((((((0u16 | a) | b) | c) | d) | e) | f == added ==> ((added & 0x01 == 0x01) <==> a
        == 0x01) && ((added & 0x02 == 0x02) <==> b == 0x02) && ((added & 0x04 == 0x04) <==> c
        == 0x04) && ((added & 0x08 == 0x08) <==> d == 0x08) && ((added & 0x100 == 0x100) <==> e
        == 0x100) && ((added & 0x40 == 0x40) <==> f == 0x40)) by (bit_vector)
        requires
            a == 0 || a == 0x01,
            b == 0 || b == 0x02,
            c == 0 || c == 0x04,
            d == 0 || d == 0x08,
            e == 0 || e == 0x100,
            f == 0 || f == 0x40,
    ;
}

/// A bright color is eight behind the plain one, and a dim color is the plain
/// one. The terminal's own foreground and background need no color in their
/// own places.
pub proof fn bright_colors_are_eight_behind(foreground: bool)
    ensures
        ({
            let of = |color: NamedColor| named_host(color, foreground);
            let ansi = |n: u8| Some(HostColor::Ansi(n));
            &&& of(NamedColor::Black) == ansi(0) && of(NamedColor::BrightBlack) == ansi(8)
            &&& of(NamedColor::Red) == ansi(1) && of(NamedColor::BrightRed) == ansi(9)
            &&& of(NamedColor::Green) == ansi(2) && of(NamedColor::BrightGreen) == ansi(10)
            &&& of(NamedColor::Yellow) == ansi(3) && of(NamedColor::BrightYellow) == ansi(11)
            &&& of(NamedColor::Blue) == ansi(4) && of(NamedColor::BrightBlue) == ansi(12)
            &&& of(NamedColor::Magenta) == ansi(5) && of(NamedColor::BrightMagenta) == ansi(13)
            &&& of(NamedColor::Cyan) == ansi(6) && of(NamedColor::BrightCyan) == ansi(14)
            &&& of(NamedColor::White) == ansi(7) && of(NamedColor::BrightWhite) == ansi(15)
            &&& of(NamedColor::DimBlack) == of(NamedColor::Black)
            &&& of(NamedColor::DimRed) == of(NamedColor::Red)
            &&& of(NamedColor::DimGreen) == of(NamedColor::Green)
            &&& of(NamedColor::DimYellow) == of(NamedColor::Yellow)
            &&& of(NamedColor::DimBlue) == of(NamedColor::Blue)
            &&& of(NamedColor::DimMagenta) == of(NamedColor::Magenta)
            &&& of(NamedColor::DimCyan) == of(NamedColor::Cyan)
            &&& of(NamedColor::DimWhite) == of(NamedColor::White)
            &&& of(NamedColor::Foreground) is None <==> foreground
            &&& of(NamedColor::Background) is None <==> !foreground
            &&& of(NamedColor::BrightForeground) == of(NamedColor::Foreground)
            &&& of(NamedColor::DimForeground) == of(NamedColor::Foreground)
        }),
{
}

/// Colors by their parts, or by their numbers, are taken as they are.
pub proof fn exact_colors_are_kept(r: u8, g: u8, b: u8, foreground: bool)
    ensures
        host_color(CellColor::Spec(r, g, b), foreground) == Some(HostColor::Rgb(r, g, b)),
        host_color(CellColor::Indexed(r), foreground) == Some(HostColor::Indexed(r)),
{
}

/// A title is shown without control characters, up to a bound; one of which
/// nothing is left is that of a shell.
pub proof fn titles_are_printable_and_bounded(title: Seq<char>)
    ensures
        ({
            let plain = title.filter(|c: char| !control(c));
            &&& plain.len() == 0 ==> short_title(title) == "shell"@
            &&& 0 < plain.len() <= TITLE_CHARS ==> short_title(title) == plain
            &&& plain.len() > TITLE_CHARS ==> short_title(title) == plain.subrange(
                0,
                TITLE_CHARS as int,
            )
        }),
{
    lemma_printable(title);
    let plain = title.filter(|c: char| !control(c));
    assert(plain.take(plain.len() as int) =~= plain);
    if plain.len() > TITLE_CHARS {
        assert(plain.take(TITLE_CHARS as int) =~= plain.subrange(0, TITLE_CHARS as int));
    }
}

proof fn lemma_printable(s: Seq<char>)
    ensures
        printable(s) == s.filter(|c: char| !control(c)),
    decreases s.len(),
{
    reveal(Seq::filter);
    if s.len() > 0 {
        lemma_printable(s.drop_last());
    }
}

/// The title of a terminal starts with its number; that earlier lines are on
/// the screen stands at the end.
pub proof fn titles_tell_the_number(
    number: int,
    title: Seq<char>,
    task: Option<TaskStatus>,
    scrolled_to_bottom: bool,
)
    requires
        0 <= number,
    ensures
        starts(
            terminal_title(number, title, task, scrolled_to_bottom),
            " Terminal "@ + decimal(number as nat) + " \u{b7} "@ + short_title(title),
        ),
        !scrolled_to_bottom ==> ends(
            terminal_title(number, title, task, scrolled_to_bottom),
            status_words(task) + " \u{b7} scrollback"@ + " "@,
        ),
        scrolled_to_bottom ==> ends(
            terminal_title(number, title, task, scrolled_to_bottom),
            status_words(task) + " "@,
        ),
        terminal_title(number, title, task, false).len() > terminal_title(
            number,
            title,
            task,
            true,
        ).len(),
        status_words(None).len() == 0,
        status_words(Some(TaskStatus::Completed { success: true })) == " \u{b7} passed"@,
        status_words(Some(TaskStatus::Completed { success: false })) == " \u{b7} failed"@,
{
    let all = terminal_title(number, title, task, scrolled_to_bottom);
    let front = " Terminal "@ + decimal(number as nat) + " \u{b7} "@ + short_title(title);
    assert(all.take(front.len() as int) =~= front);
    let long = status_words(task) + " \u{b7} scrollback"@ + " "@;
    let short = status_words(task) + " "@;
    if scrolled_to_bottom {
        assert(all.skip(all.len() - short.len()) =~= short);
    } else {
        assert(all.skip(all.len() - long.len()) =~= long);
    }
    reveal_strlit(" \u{b7} scrollback");
}

} // verus!
