use vstd::prelude::*;

use crate::base::Pos;
use crate::circuit::Circuit;
use crate::platform::console::KeyInput;
use crate::base::text::empty_string;
use crate::view::renderer::{append_text, ViewRenderer};

verus! {

/// The smallest `x` and the smallest `y` among the cells (they may belong to
/// different cells); `(0, 0)` when there is no cell.
pub open spec fn min_corner(cells: Seq<Pos>) -> (i32, i32)
    decreases cells.len(),
{
    if cells.len() == 0 {
        (0, 0)
    } else if cells.len() == 1 {
        (cells[0].x, cells[0].y)
    } else {
        let (x, y) = min_corner(cells.drop_last());
        let p = cells.last();
        (if p.x < x { p.x } else { x }, if p.y < y { p.y } else { y })
    }
}

/// Where the view starts: the smallest `x` and the smallest `y` among the
/// cells, so that every cell lies right of and below it; `(0, 0)` without
/// cells.
pub fn initial_viewport(circuit: &Circuit) -> (v: (i32, i32))
    ensures
        v == min_corner(circuit@.cells),
{
    let cells = circuit.sorted_cells();
    if cells.len() == 0 {
        return (0, 0);
    }
    let mut min_x = cells[0].x;
    let mut min_y = cells[0].y;
    let mut i: usize = 1;
    assert(cells@.subrange(0, 1).drop_last() =~= Seq::<Pos>::empty());
    while i < cells.len()
        invariant
            1 <= i <= cells@.len(),
            (min_x, min_y) == min_corner(cells@.subrange(0, i as int)),
        decreases cells@.len() - i,
    {
        let pos = cells[i];
        if pos.x < min_x {
            min_x = pos.x;
        }
        if pos.y < min_y {
            min_y = pos.y;
        }
        assert(cells@.subrange(0, i + 1).drop_last() =~= cells@.subrange(0, i as int));
        i = i + 1;
    }
    assert(cells@.subrange(0, cells@.len() as int) =~= cells@);
    (min_x, min_y)
}

/// The corner is left of and above every cell.
pub proof fn lemma_min_corner(cells: Seq<Pos>, k: int)
    requires
        0 <= k < cells.len(),
    ensures
        min_corner(cells).0 <= cells[k].x,
        min_corner(cells).1 <= cells[k].y,
    decreases cells.len(),
{
    if cells.len() > 1 && k < cells.len() - 1 {
        lemma_min_corner(cells.drop_last(), k);
    }
}

/// The decisions of the interactive view: whether it is paused and where the
/// viewport is.
#[derive(Debug, Clone, Copy, PartialEq, Eq, Structural)]
pub struct ViewControl {
    pub renderer: ViewRenderer,
    pub paused: bool,
}

/// Whether a key can be handled from this viewport without leaving the
/// range of `i32`.
pub open spec fn key_in_range(v: (i32, i32), key: KeyInput) -> bool {
    match key {
        KeyInput::Up => v.1 > i32::MIN,
        KeyInput::Down => v.1 < i32::MAX,
        KeyInput::Left => v.0 > i32::MIN,
        KeyInput::Right => v.0 < i32::MAX,
        KeyInput::Char(_) => true,
    }
}

impl ViewControl {
    /// A running view whose viewport starts at `viewport`.
    pub fn new(viewport: (i32, i32)) -> (c: ViewControl)
        ensures
            c.renderer@ == viewport,
            !c.paused,
    {
        ViewControl { renderer: ViewRenderer::new(viewport.0, viewport.1), paused: false }
    }

    /// Handles a key: `q` quits (the result is `true`), space pauses or
    /// resumes, the arrows move the viewport by one cell; other keys do
    /// nothing.
    pub fn on_key(&mut self, key: KeyInput) -> (quit: bool)
        requires
            key_in_range(old(self).renderer@, key),
        ensures
            quit == (key == KeyInput::Char('q')),
            final(self).paused == (if key == KeyInput::Char(' ') {
                !old(self).paused
            } else {
                old(self).paused
            }),
            final(self).renderer@ == match key {
                KeyInput::Up => (old(self).renderer@.0, (old(self).renderer@.1 - 1) as i32),
                KeyInput::Down => (old(self).renderer@.0, (old(self).renderer@.1 + 1) as i32),
                KeyInput::Left => ((old(self).renderer@.0 - 1) as i32, old(self).renderer@.1),
                KeyInput::Right => ((old(self).renderer@.0 + 1) as i32, old(self).renderer@.1),
                KeyInput::Char(_) => old(self).renderer@,
            },
    {
        match key {
            KeyInput::Char('q') => {
                return true;
            },
            KeyInput::Char(' ') => {
                self.paused = !self.paused;
            },
            KeyInput::Up => self.renderer.scroll(0, -1),
            KeyInput::Down => self.renderer.scroll(0, 1),
            KeyInput::Left => self.renderer.scroll(-1, 0),
            KeyInput::Right => self.renderer.scroll(1, 0),
            KeyInput::Char(_) => {},
        }
        false
    }

    /// Whether the view waits for a key without a time limit (it does while
    /// paused).
    pub fn waits_for_key(&self) -> (b: bool)
        ensures
            b == self.paused,
    {
        self.paused
    }

    /// Whether a tick is due: the view runs and the tick interval has passed.
    pub fn tick_due(&self, interval_elapsed: bool) -> (b: bool)
        ensures
            b == (!self.paused && interval_elapsed),
    {
        !self.paused && interval_elapsed
    }
}

/// Whether the view loop may run another round after `iterations` rounds:
/// always without a limit, else while fewer rounds than the limit have run.
pub fn may_iterate(iterations: usize, max_iterations: Option<usize>) -> (b: bool)
    ensures
        b == match max_iterations {
            Some(limit) => iterations < limit,
            None => true,
        },
{
    match max_iterations {
        Some(limit) => iterations < limit,
        None => true,
    }
}

/// The message when both the view loop and the terminal restore failed.
pub open spec fn both_failed_text(run_err: Seq<char>, leave_err: Seq<char>) -> Seq<char> {
    "view loop failed: "@ + run_err + "; and terminal restore failed: "@ + leave_err
}

/// What the view reports once the terminal has been restored: success when
/// both the loop and the restore succeeded; the one error when only one of
/// them failed; both errors joined into one message when both failed.
pub fn view_outcome(run: Result<(), String>, leave: Result<(), String>) -> (r: Result<(), String>)
    ensures
        match (run, leave) {
            (Ok(()), Ok(())) => r is Ok,
            (Err(e), Ok(())) => r matches Err(m) && m@ == e@,
            (Ok(()), Err(e)) => r matches Err(m) && m@ == e@,
            (Err(e1), Err(e2)) => r matches Err(m) && m@ == both_failed_text(e1@, e2@),
        },
{
    match (run, leave) {
        (Ok(()), Ok(())) => Ok(()),
        (Err(err), Ok(())) => Err(err),
        (Ok(()), Err(leave_err)) => Err(leave_err),
        (Err(run_err), Err(leave_err)) => {
            let mut m = empty_string();
            append_text(&mut m, "view loop failed: ");
            append_text(&mut m, run_err.as_str());
            append_text(&mut m, "; and terminal restore failed: ");
            append_text(&mut m, leave_err.as_str());
            proof {
                reveal_strlit("view loop failed: ");
                reveal_strlit("; and terminal restore failed: ");
            }
            assert(m@ =~= both_failed_text(run_err@, leave_err@));
            Err(m)
        },
    }
}

} // verus!
