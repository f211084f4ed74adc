use vstd::prelude::*;

use crate::base::text::{empty_string, int_decimal, nat_decimal, push_char, push_i64, push_u64};
use crate::base::Pos;
use crate::simulation::engine::{cell_lookup, CellMap};
use crate::simulation::SimState;

verus! {

/// The keys the status bar names.
pub const HELP_TEXT: &'static str = "(q:quit space:pause arrows:scroll)";

/// Something that knows the value of cells by position.
pub trait CellLookup {
    /// The value of `pos`, if it is known.
    spec fn lookup(&self, pos: Pos) -> Option<bool>;

    /// The value of `pos`, if it is known.
    fn value_of(&self, pos: Pos) -> (r: Option<bool>)
        ensures
            r == self.lookup(pos),
    ;
}

impl CellLookup for SimState {
    open spec fn lookup(&self, pos: Pos) -> Option<bool> {
        cell_lookup(self@, pos)
    }

    fn value_of(&self, pos: Pos) -> (r: Option<bool>) {
        self.get(pos)
    }
}

impl CellLookup for CellMap {
    open spec fn lookup(&self, pos: Pos) -> Option<bool> {
        cell_lookup(self@, pos)
    }

    fn value_of(&self, pos: Pos) -> (r: Option<bool>) {
        match self.get(&pos) {
            Some(v) => Some(*v),
            None => None,
        }
    }
}

/// The symbol of a cell: `#` on, `_` off, `.` no cell.
pub open spec fn cell_symbol(v: Option<bool>) -> char {
    match v {
        Some(true) => '#',
        Some(false) => '_',
        None => '.',
    }
}

/// The `r`-th row of the grid: one symbol per column.
pub open spec fn grid_row<S: CellLookup>(s: S, x: int, y: int, cols: nat, r: int) -> Seq<char> {
    Seq::new(cols, |c: int| cell_symbol(s.lookup(Pos { x: (x + c) as i32, y: (y + r) as i32 })))
}

/// The first `n` rows of the grid, separated by `\r\n`.
pub open spec fn grid_text<S: CellLookup>(s: S, x: int, y: int, cols: nat, n: nat) -> Seq<char>
    decreases n,
{
    if n == 0 {
        Seq::empty()
    } else if n == 1 {
        grid_row(s, x, y, cols, 0)
    } else {
        grid_text(s, x, y, cols, (n - 1) as nat) + seq!['\r', '\n'] + grid_row(s, x, y, cols, n - 1)
    }
}

/// `n` spaces.
pub open spec fn spaces(n: nat) -> Seq<char> {
    Seq::new(n, |i: int| ' ')
}

/// `left` and `right` on one line of exactly `width` characters: padded with
/// spaces between them; when they do not fit, `left` is cut first (keeping
/// one space), then `right`.
pub open spec fn fitted(left: Seq<char>, right: Seq<char>, width: nat) -> Seq<char> {
    if width == 0 {
        Seq::empty()
    } else if left.len() + 1 + right.len() <= width {
        left + spaces((width - left.len() - right.len()) as nat) + right
    } else if right.len() >= width {
        right.subrange(0, width as int)
    } else {
        left.subrange(0, width - right.len() - 1) + spaces(1) + right
    }
}

/// The word for the run state.
pub open spec fn run_state_word(paused: bool) -> Seq<char> {
    if paused {
        "paused"@
    } else {
        "running"@
    }
}

/// The left part of the status bar: `tick:T | STATE | (x1,y1)-(x2,y2)`.
pub open spec fn status_left(tick: u64, paused: bool, x1: int, y1: int, x2: int, y2: int) -> Seq<char> {
    "tick:"@ + nat_decimal(tick as nat) + " | "@ + run_state_word(paused) + " | ("@ + int_decimal(x1)
        + ","@ + int_decimal(y1) + ")-("@ + int_decimal(x2) + ","@ + int_decimal(y2) + ")"@
}

/// The left part of the status bar begins with the tick and ends with the two
/// corners of the grid: `(left,top)-(right,bottom)`, the top-left corner first.
pub proof fn lemma_status_left_corners(tick: u64, paused: bool, left: int, top: int, right: int, bottom: int)
    ensures
        ({
            let s = status_left(tick, paused, left, top, right, bottom);
            let head = seq!['t', 'i', 'c', 'k', ':'] + nat_decimal(tick as nat);
            let tail = seq!['('] + int_decimal(left) + seq![','] + int_decimal(top) + seq![')', '-', '(']
                + int_decimal(right) + seq![','] + int_decimal(bottom) + seq![')'];
            &&& s.len() >= head.len() + tail.len()
            &&& s.subrange(0, head.len() as int) == head
            &&& s.subrange(s.len() - tail.len(), s.len() as int) == tail
        }),
{
    reveal_strlit("tick:");
    reveal_strlit(" | ");
    reveal_strlit(" | (");
    reveal_strlit(",");
    reveal_strlit(")-(");
    reveal_strlit(")");
    let s = status_left(tick, paused, left, top, right, bottom);
    let head = seq!['t', 'i', 'c', 'k', ':'] + nat_decimal(tick as nat);
    let mid = " | "@ + run_state_word(paused) + seq![' ', '|', ' '];
    let tail = seq!['('] + int_decimal(left) + seq![','] + int_decimal(top) + seq![')', '-', '(']
        + int_decimal(right) + seq![','] + int_decimal(bottom) + seq![')'];
    assert(s =~= head + mid + tail);
    assert((head + mid + tail).subrange(0, head.len() as int) =~= head);
    assert((head + mid + tail).subrange(
        (head + mid + tail).len() - tail.len(),
        (head + mid + tail).len() as int,
    ) =~= tail);
}

/// When the left text, a space and the right text fit in the width, the
/// status line starts with the whole left text and ends with the whole right
/// text.
pub proof fn lemma_fitted_keeps_both(left: Seq<char>, right: Seq<char>, width: nat)
    requires
        width > 0,
        left.len() + 1 + right.len() <= width,
    ensures
        fitted(left, right, width).len() == width,
        fitted(left, right, width).subrange(0, left.len() as int) == left,
        fitted(left, right, width).subrange(width - right.len(), width as int) == right,
{
    let f = fitted(left, right, width);
    assert(f.subrange(0, left.len() as int) =~= left);
    assert(f.subrange(width - right.len(), width as int) =~= right);
}

/// Draws frames of a part of the grid: the top-left cell shown is the viewport.
#[derive(Debug, Clone, Copy, PartialEq, Eq, Structural)]
pub struct ViewRenderer {
    viewport_x: i32,
    viewport_y: i32,
}

impl View for ViewRenderer {
    type V = (i32, i32);

    closed spec fn view(&self) -> (i32, i32) {
        (self.viewport_x, self.viewport_y)
    }
}

/// `s` with `t` appended.
pub(crate) fn append_text(s: &mut String, t: &str)
    ensures
        final(s)@ == old(s)@ + t@,
{
    s.append(t);
}

/// `n` spaces appended.
fn push_spaces(s: &mut String, n: usize)
    ensures
        final(s)@ == old(s)@ + spaces(n as nat),
{
    let ghost start = s@;
    let mut i: usize = 0;
    while i < n
        invariant
            i <= n,
            s@ == start + spaces(i as nat),
        decreases n - i,
    {
        push_char(s, ' ');
        i = i + 1;
        assert(s@ =~= start + spaces(i as nat));
    }
}

/// `left` and `right` on one line of exactly `width` characters.
pub fn fit_status_line(left: &str, right: &str, width: usize) -> (s: String)
    ensures
        s@ == fitted(left@, right@, width as nat),
        s@.len() == width,
{
    if width == 0 {
        return empty_string();
    }
    let left_count = left.unicode_len();
    let right_count = right.unicode_len();
    if left_count as u128 + 1 + right_count as u128 <= width as u128 {
        let mut s = empty_string();
        append_text(&mut s, left);
        push_spaces(&mut s, width - left_count - right_count);
        append_text(&mut s, right);
        assert(s@ =~= fitted(left@, right@, width as nat));
        return s;
    }
    if right_count >= width {
        let mut s = empty_string();
        append_text(&mut s, right.substring_char(0, width));
        assert(s@ =~= fitted(left@, right@, width as nat));
        return s;
    }
    let max_left = width - right_count - 1;
    let mut s = empty_string();
    append_text(&mut s, left.substring_char(0, max_left));
    push_spaces(&mut s, 1);
    append_text(&mut s, right);
    assert(s@ =~= fitted(left@, right@, width as nat));
    s
}

impl ViewRenderer {
    /// A renderer whose viewport starts at `(viewport_x, viewport_y)`.
    pub fn new(viewport_x: i32, viewport_y: i32) -> (r: ViewRenderer)
        ensures
            r@ == (viewport_x, viewport_y),
    {
        ViewRenderer { viewport_x, viewport_y }
    }

    /// The grid of `cols` columns and `rows` rows from the viewport: one
    /// symbol per cell, rows separated by `\r\n`. (The positions of the
    /// cells shown must fit in `i32`.)
    pub fn render_grid<S: CellLookup>(&self, state: &S, cols: u16, rows: u16) -> (s: String)
        requires
            cols > 0 && rows > 0 ==> self@.0 + cols <= i32::MAX + 1 && self@.1 + rows <= i32::MAX + 1,
        ensures
            s@ == grid_text(*state, self@.0 as int, self@.1 as int, cols as nat, rows as nat),
    {
        let mut output = empty_string();
        let mut row: u16 = 0;
        while row < rows
            invariant
                row <= rows,
                cols > 0 && rows > 0 ==> self@.0 + cols <= i32::MAX + 1 && self@.1 + rows <= i32::MAX
                    + 1,
                output@ == grid_text(*state, self@.0 as int, self@.1 as int, cols as nat, row as nat),
            decreases rows - row,
        {
            let ghost before = output@;
            if row > 0 {
                push_char(&mut output, '\r');
                push_char(&mut output, '\n');
            }
            let ghost line_start = output@;
            let mut col: u16 = 0;
            while col < cols
                invariant
                    col <= cols,
                    row < rows,
                    cols > 0 && rows > 0 ==> self@.0 + cols <= i32::MAX + 1 && self@.1 + rows
                        <= i32::MAX + 1,
                    output@ == line_start + grid_row(
                        *state,
                        self@.0 as int,
                        self@.1 as int,
                        col as nat,
                        row as int,
                    ),
                decreases cols - col,
            {
                let pos = Pos::new(self.viewport_x + col as i32, self.viewport_y + row as i32);
                let ch = match state.value_of(pos) {
                    Some(true) => '#',
                    Some(false) => '_',
                    None => '.',
                };
                push_char(&mut output, ch);
                col = col + 1;
                assert(output@ =~= line_start + grid_row(
                    *state,
                    self@.0 as int,
                    self@.1 as int,
                    col as nat,
                    row as int,
                ));
            }
            row = row + 1;
            proof {
                if row == 1 {
                    assert(output@ =~= grid_text(
                        *state,
                        self@.0 as int,
                        self@.1 as int,
                        cols as nat,
                        row as nat,
                    ));
                }
            }
        }
        output
    }

    /// The status bar: `tick:T | STATE | (x1,y1)-(x2,y2)` on the left, the
    /// keys on the right, on exactly `total_width` characters; the corners
    /// are those of a grid of `grid_cols` by `grid_rows` cells.
    pub fn render_status_bar(
        &self,
        tick: u64,
        paused: bool,
        grid_cols: u16,
        grid_rows: u16,
        total_width: u16,
    ) -> (s: String)
        requires
            self@.0 + grid_cols <= i32::MAX + 1,
            self@.1 + grid_rows <= i32::MAX + 1,
        ensures
            s@ == fitted(
                status_left(
                    tick,
                    paused,
                    self@.0 as int,
                    self@.1 as int,
                    self@.0 + (if grid_cols > 0 { grid_cols - 1 } else { 0 }),
                    self@.1 + (if grid_rows > 0 { grid_rows - 1 } else { 0 }),
                ),
                HELP_TEXT@,
                total_width as nat,
            ),
            s@.len() == total_width,
    {
        let x1 = self.viewport_x;
        let y1 = self.viewport_y;
        let x2 = x1 + grid_cols.saturating_sub(1) as i32;
        let y2 = y1 + grid_rows.saturating_sub(1) as i32;
        let mut left = empty_string();
        append_text(&mut left, "tick:");
        push_u64(&mut left, tick);
        append_text(&mut left, " | ");
        if paused {
            append_text(&mut left, "paused");
        } else {
            append_text(&mut left, "running");
        }
        append_text(&mut left, " | (");
        push_i64(&mut left, x1 as i64);
        append_text(&mut left, ",");
        push_i64(&mut left, y1 as i64);
        append_text(&mut left, ")-(");
        push_i64(&mut left, x2 as i64);
        append_text(&mut left, ",");
        push_i64(&mut left, y2 as i64);
        append_text(&mut left, ")");
        assert(left@ =~= status_left(tick, paused, x1 as int, y1 as int, x2 as int, y2 as int));
        fit_status_line(left.as_str(), HELP_TEXT, total_width as usize)
    }

    /// A whole frame of `cols` by `rows` characters: the grid on all rows but
    /// the last, then the status bar; an empty frame when there is no row.
    /// (The positions the frame shows must fit in `i32`.)
    pub fn render_frame<S: CellLookup>(
        &self,
        state: &S,
        tick: u64,
        paused: bool,
        cols: u16,
        rows: u16,
    ) -> (s: String)
        requires
            rows > 0 ==> self@.0 + cols <= i32::MAX + 1 && self@.1 + rows <= i32::MAX + 2,
        ensures
            rows == 0 ==> s@.len() == 0,
            rows == 1 ==> s@ == self.status_text(tick, paused, cols, 0),
            rows > 1 ==> s@ == grid_text(
                *state,
                self@.0 as int,
                self@.1 as int,
                cols as nat,
                (rows - 1) as nat,
            ) + seq!['\n'] + self.status_text(tick, paused, cols, (rows - 1) as u16),
    {
        if rows == 0 {
            return empty_string();
        }
        let grid_rows = rows - 1;
        let grid = self.render_grid(state, cols, grid_rows);
        let status = self.render_status_bar(tick, paused, cols, grid_rows, cols);
        if grid_rows == 0 {
            status
        } else {
            let mut frame = grid;
            push_char(&mut frame, '\n');
            append_text(&mut frame, status.as_str());
            frame
        }
    }

    /// The status bar of a frame `cols` wide above which `grid_rows` rows of
    /// grid are shown.
    pub open spec fn status_text(&self, tick: u64, paused: bool, cols: u16, grid_rows: u16) -> Seq<char> {
        fitted(
            status_left(
                tick,
                paused,
                self@.0 as int,
                self@.1 as int,
                self@.0 + (if cols > 0 { cols - 1 } else { 0 }),
                self@.1 + (if grid_rows > 0 { grid_rows - 1 } else { 0 }),
            ),
            HELP_TEXT@,
            cols as nat,
        )
    }

    /// Moves the viewport by `(dx, dy)`. (The new corner must fit in `i32`.)
    pub fn scroll(&mut self, dx: i32, dy: i32)
        requires
            i32::MIN <= old(self)@.0 + dx <= i32::MAX,
            i32::MIN <= old(self)@.1 + dy <= i32::MAX,
        ensures
            final(self)@ == ((old(self)@.0 + dx) as i32, (old(self)@.1 + dy) as i32),
    {
        self.viewport_x = self.viewport_x + dx;
        self.viewport_y = self.viewport_y + dy;
    }

    /// The top-left cell shown.
    pub fn viewport(&self) -> (v: (i32, i32))
        ensures
            v == self@,
    {
        (self.viewport_x, self.viewport_y)
    }
}

} // verus!
