use vstd::prelude::*;

use crate::base::{Pos, Rect, SimulationError};
use crate::circuit::circuit::CircuitView;
use crate::circuit::Circuit;

verus! {

/// What `Simulator::step` reports.
#[derive(Debug, Clone, Copy, PartialEq, Eq, Structural)]
pub enum StepResult {
    /// One cell was processed; the current tick still has cells left.
    Continue,
    /// The last cell of the tick was processed; the tick is complete.
    TickComplete,
}

/// A tester whose expected value differs from what its cell holds.
#[derive(Debug, Clone, Copy, PartialEq, Eq, Structural)]
pub struct TesterResult {
    pub target: Pos,
    pub tick: u64,
    pub expected: bool,
    pub actual: bool,
}

/// Which cells a tick output collects.
#[derive(Debug)]
pub enum OutputFormat {
    /// Every cell.
    AllCell,
    /// Only the cells inside at least one of the rectangles.
    ViewPort(Vec<Rect>),
}

/// What an output format is.
pub enum FormatView {
    AllCell,
    ViewPort(Seq<Rect>),
}

impl View for OutputFormat {
    type V = FormatView;

    open spec fn view(&self) -> FormatView {
        match self {
            OutputFormat::AllCell => FormatView::AllCell,
            OutputFormat::ViewPort(rects) => FormatView::ViewPort(rects@),
        }
    }
}

impl Clone for OutputFormat {
    fn clone(&self) -> (r: Self)
        ensures
            r@ == self@,
    {
        match self {
            OutputFormat::AllCell => OutputFormat::AllCell,
            OutputFormat::ViewPort(rects) => OutputFormat::ViewPort(rects.clone()),
        }
    }
}

/// Whether some rectangle of `rects` contains `p`.
pub open spec fn in_some_rect(rects: Seq<Rect>, p: Pos) -> bool {
    exists|k: int| 0 <= k < rects.len() && crate::base::rect::rect_contains(#[trigger] rects[k], p)
}

/// Whether an output of format `f` collects the cell `p`.
pub open spec fn format_shows(f: FormatView, p: Pos) -> bool {
    match f {
        FormatView::AllCell => true,
        FormatView::ViewPort(rects) => in_some_rect(rects, p),
    }
}

/// The value of the first entry for `p`, if any.
pub open spec fn cell_lookup(s: Seq<(Pos, bool)>, p: Pos) -> Option<bool>
    decreases s.len(),
{
    if s.len() == 0 {
        None
    } else if s[0].0 == p {
        Some(s[0].1)
    } else {
        cell_lookup(s.drop_first(), p)
    }
}

/// `s` with every entry of `p` holding `v`.
pub open spec fn cells_with(s: Seq<(Pos, bool)>, p: Pos, v: bool) -> Seq<(Pos, bool)> {
    Seq::new(s.len(), |k: int| if s[k].0 == p { (p, v) } else { s[k] })
}

/// A lookup finds an entry exactly when one has the key, and then it finds
/// the value of the first such entry.
pub proof fn lemma_cell_lookup(s: Seq<(Pos, bool)>, p: Pos)
    ensures
        (cell_lookup(s, p) is Some) == exists|k: int| 0 <= k < s.len() && (#[trigger] s[k]).0 == p,
        forall|k: int|
            0 <= k < s.len() && (#[trigger] s[k]).0 == p && (forall|j: int|
                0 <= j < k ==> (#[trigger] s[j]).0 != p) ==> cell_lookup(s, p) == Some(s[k].1),
    decreases s.len(),
{
    if s.len() > 0 {
        let t = s.drop_first();
        lemma_cell_lookup(t, p);
        if s[0].0 != p {
            assert forall|k: int| 0 <= k < s.len() && (#[trigger] s[k]).0 == p implies 0 <= k - 1
                < t.len() && t[k - 1].0 == p by {
                assert(k != 0);
            }
            if exists|k: int| 0 <= k < t.len() && (#[trigger] t[k]).0 == p {
                let k = choose|k: int| 0 <= k < t.len() && (#[trigger] t[k]).0 == p;
                assert(s[k + 1] == t[k]);
            }
            assert forall|k: int|
                0 <= k < s.len() && (#[trigger] s[k]).0 == p && (forall|j: int|
                    0 <= j < k ==> (#[trigger] s[j]).0 != p) implies cell_lookup(s, p) == Some(
                s[k].1,
            ) by {
                assert(t[k - 1] == s[k]);
                assert forall|j: int| 0 <= j < k - 1 implies (#[trigger] t[j]).0 != p by {
                    assert(t[j] == s[j + 1]);
                }
            }
        } else {
            assert(s[0].0 == p);
        }
    }
}

/// Adding an entry at the end changes a lookup only when nothing was found
/// before.
pub proof fn lemma_lookup_push(s: Seq<(Pos, bool)>, e: (Pos, bool), p: Pos)
    ensures
        cell_lookup(s.push(e), p) == (match cell_lookup(s, p) {
            Some(v) => Some(v),
            None => if e.0 == p {
                Some(e.1)
            } else {
                None
            },
        }),
    decreases s.len(),
{
    if s.len() > 0 {
        assert(s.push(e).drop_first() =~= s.drop_first().push(e));
        assert(s.push(e)[0] == s[0]);
        lemma_lookup_push(s.drop_first(), e, p);
    } else {
        assert(s.push(e).drop_first() =~= Seq::<(Pos, bool)>::empty());
        assert(s.push(e)[0] == e);
        assert(cell_lookup(s.push(e).drop_first(), p) is None);
    }
}

/// Reading back after a write: once every entry of `p` holds `v`, a lookup
/// of `p` finds `v` exactly when `p` had an entry, and a lookup of any other
/// position finds what it found before.
pub proof fn lemma_cells_with_lookup(s: Seq<(Pos, bool)>, p: Pos, v: bool, q: Pos)
    ensures
        cell_lookup(cells_with(s, p, v), q) == (if q == p {
            if cell_lookup(s, p) is Some {
                Some(v)
            } else {
                None
            }
        } else {
            cell_lookup(s, q)
        }),
    decreases s.len(),
{
    if s.len() > 0 {
        assert(cells_with(s, p, v).drop_first() =~= cells_with(s.drop_first(), p, v));
        lemma_cells_with_lookup(s.drop_first(), p, v, q);
    }
}

/// Cell values by position, kept in the order they were added.
#[derive(Debug, PartialEq, Eq)]
pub struct CellMap {
    entries: Vec<(Pos, bool)>,
}

impl View for CellMap {
    type V = Seq<(Pos, bool)>;

    closed spec fn view(&self) -> Seq<(Pos, bool)> {
        self.entries@
    }
}

impl Clone for CellMap {
    fn clone(&self) -> (r: Self)
        ensures
            r@ == self@,
    {
        let mut entries: Vec<(Pos, bool)> = Vec::new();
        let mut i: usize = 0;
        while i < self.entries.len()
            invariant
                i <= self.entries@.len(),
                entries@ == self.entries@.subrange(0, i as int),
            decreases self.entries@.len() - i,
        {
            let (p, v) = self.entries[i];
            entries.push((p, v));
            i = i + 1;
            assert(entries@ =~= self.entries@.subrange(0, i as int));
        }
        assert(entries@ =~= self.entries@);
        CellMap { entries }
    }
}

impl CellMap {
    /// An empty map.
    pub fn new() -> (m: CellMap)
        ensures
            m@ == Seq::<(Pos, bool)>::empty(),
    {
        CellMap { entries: Vec::new() }
    }

    /// A map holding these entries, in this order.
    pub fn from_entries(entries: Vec<(Pos, bool)>) -> (m: CellMap)
        ensures
            m@ == entries@,
    {
        CellMap { entries }
    }

    /// The value of `pos`, if it has one.
    pub fn get(&self, pos: &Pos) -> (r: Option<&bool>)
        ensures
            match r {
                Some(v) => cell_lookup(self@, *pos) == Some(*v),
                None => cell_lookup(self@, *pos) is None,
            },
    {
        let mut i: usize = 0;
        assert(self.entries@.subrange(0, self.entries@.len() as int) =~= self.entries@);
        while i < self.entries.len()
            invariant
                i <= self.entries@.len(),
                cell_lookup(self.entries@, *pos) == cell_lookup(
                    self.entries@.subrange(i as int, self.entries@.len() as int),
                    *pos,
                ),
            decreases self.entries@.len() - i,
        {
            let ghost rest = self.entries@.subrange(i as int, self.entries@.len() as int);
            assert(rest.drop_first() =~= self.entries@.subrange(
                i + 1,
                self.entries@.len() as int,
            ));
            if self.entries[i].0 == *pos {
                return Some(&self.entries[i].1);
            }
            i = i + 1;
        }
        None
    }

    /// Whether `pos` has a value.
    pub fn contains_key(&self, pos: &Pos) -> (b: bool)
        ensures
            b == (cell_lookup(self@, *pos) is Some),
    {
        self.get(pos).is_some()
    }

    /// The number of entries.
    pub fn len(&self) -> (n: usize)
        ensures
            n == self@.len(),
    {
        self.entries.len()
    }

    /// Whether there is no entry.
    pub fn is_empty(&self) -> (b: bool)
        ensures
            b == (self@.len() == 0),
    {
        self.entries.len() == 0
    }

    /// Gives `value` to every entry of `pos`; returns whether there was one.
    pub fn set_value(&mut self, pos: Pos, value: bool) -> (found: bool)
        ensures
            found == (cell_lookup(old(self)@, pos) is Some),
            final(self)@ == cells_with(old(self)@, pos, value),
    {
        proof {
            lemma_cell_lookup(self@, pos);
        }
        let ghost start = self.entries@;
        let mut found = false;
        let mut i: usize = 0;
        while i < self.entries.len()
            invariant
                i <= start.len(),
                self.entries@.len() == start.len(),
                forall|k: int|
                    0 <= k < start.len() ==> #[trigger] self.entries@[k] == (if k < i {
                        cells_with(start, pos, value)[k]
                    } else {
                        start[k]
                    }),
                found == exists|k: int| 0 <= k < i && (#[trigger] start[k]).0 == pos,
            decreases start.len() - i,
        {
            if self.entries[i].0 == pos {
                self.entries.set(i, (pos, value));
                found = true;
            }
            i = i + 1;
        }
        assert(self.entries@ =~= cells_with(start, pos, value));
        found
    }

    /// The entries, in order.
    pub fn entries(&self) -> (s: &[(Pos, bool)])
        ensures
            s@ == self@,
    {
        self.entries.as_slice()
    }
}

/// What a tick output is.
pub struct TickOutputView {
    pub tick: u64,
    pub cells: Seq<(Pos, bool)>,
}

/// The state of the collected cells once a tick has run.
#[derive(Debug, PartialEq, Eq)]
pub struct TickOutput {
    pub tick: u64,
    pub cells: CellMap,
}

impl View for TickOutput {
    type V = TickOutputView;

    open spec fn view(&self) -> TickOutputView {
        TickOutputView { tick: self.tick, cells: self.cells@ }
    }
}

impl Clone for TickOutput {
    fn clone(&self) -> (r: Self)
        ensures
            r@ == self@,
    {
        TickOutput { tick: self.tick, cells: self.cells.clone() }
    }
}

/// `f` applied `n` times to `a`.
pub open spec fn iterate<A>(f: spec_fn(A) -> A, a: A, n: nat) -> A
    decreases n,
{
    if n == 0 {
        a
    } else {
        f(iterate(f, a, (n - 1) as nat))
    }
}

/// The tester mismatches of `n` complete ticks, tick after tick: `verify`
/// applied to the state after each of the ticks `tick` makes from `m`.
pub open spec fn verification_of<A>(
    verify: spec_fn(A) -> Seq<TesterResult>,
    tick: spec_fn(A) -> A,
    m: A,
    n: nat,
) -> Seq<TesterResult>
    decreases n,
{
    if n == 0 {
        Seq::empty()
    } else {
        verification_of(verify, tick, m, (n - 1) as nat) + verify(iterate(tick, m, n))
    }
}

/// A simulation engine that can be driven one cell at a time.
///
/// The contracts speak of an abstract state, the model, whose meaning each
/// engine gives: what a step, a tick and the queries do to it. An engine
/// that does not give a meaning to one of them leaves it unspecified.
pub trait Simulator {
    /// The abstract state.
    type Model;

    /// The abstract state of this engine.
    open spec fn model(&self) -> Self::Model {
        arbitrary()
    }

    /// Whether `step` may be called in state `m`.
    open spec fn can_step(m: Self::Model) -> bool {
        arbitrary()
    }

    /// A bound on the steps left before the current tick completes.
    open spec fn pending(m: Self::Model) -> nat {
        arbitrary()
    }

    /// The state once the current tick has completed.
    open spec fn tick_fn() -> spec_fn(Self::Model) -> Self::Model {
        arbitrary()
    }

    /// The tester mismatches of the last completed tick.
    open spec fn verify_fn() -> spec_fn(Self::Model) -> Seq<TesterResult> {
        arbitrary()
    }

    /// The number of completed ticks.
    open spec fn tick_count(m: Self::Model) -> u64 {
        arbitrary()
    }

    /// The cached output.
    open spec fn output_model(m: Self::Model) -> TickOutputView {
        arbitrary()
    }

    /// The circuit.
    open spec fn circuit_model(m: Self::Model) -> CircuitView {
        arbitrary()
    }

    /// The cell the next step processes.
    open spec fn current_cell_model(m: Self::Model) -> Option<Pos> {
        arbitrary()
    }

    /// Whether a tick is half done.
    open spec fn updating_model(m: Self::Model) -> bool {
        arbitrary()
    }

    /// The state after `set_cell(pos, value)`, or its error.
    open spec fn set_cell_model(m: Self::Model, pos: Pos, value: bool) -> Result<
        Self::Model,
        SimulationError,
    > {
        arbitrary()
    }

    /// The state after `replay_tick`.
    open spec fn replay_model(m: Self::Model) -> Self::Model {
        arbitrary()
    }

    /// The state after `set_output_format(f)`.
    open spec fn format_model(m: Self::Model, f: FormatView) -> Self::Model {
        arbitrary()
    }

    /// Processes one cell.
    fn step(&mut self) -> (r: StepResult)
        requires
            Self::can_step(old(self).model()),
        ensures
            r == StepResult::Continue ==> {
                &&& Self::pending(final(self).model()) < Self::pending(old(self).model())
                &&& Self::can_step(final(self).model())
                &&& (Self::tick_fn())(final(self).model()) == (Self::tick_fn())(old(self).model())
            },
            r == StepResult::TickComplete ==> final(self).model() == (Self::tick_fn())(
                old(self).model(),
            ),
    ;

    /// The tester mismatches of the last completed tick.
    fn verify_testers(&self) -> (r: Vec<TesterResult>)
        ensures
            r@ == (Self::verify_fn())(self.model()),
    ;

    /// The circuit being simulated.
    fn circuit(&self) -> (c: &Circuit)
        ensures
            c@ == Self::circuit_model(self.model()),
    ;

    /// Sets the value of a cell.
    fn set_cell(&mut self, pos: Pos, value: bool) -> (r: Result<(), SimulationError>)
        ensures
            match Self::set_cell_model(old(self).model(), pos, value) {
                Ok(m) => r is Ok && final(self).model() == m,
                Err(e) => r == Err::<(), SimulationError>(e) && final(self).model() == old(
                    self,
                ).model(),
            },
    ;

    /// The cached output.
    fn last_output(&self) -> (o: &TickOutput)
        ensures
            o@ == Self::output_model(self.model()),
    ;

    /// Rebuilds the cached output from the current state.
    fn replay_tick(&mut self)
        ensures
            final(self).model() == Self::replay_model(old(self).model()),
    ;

    /// The number of completed ticks.
    fn current_tick(&self) -> (t: u64)
        ensures
            t == Self::tick_count(self.model()),
    ;

    /// The cell the next step processes.
    fn current_cell(&self) -> (p: Option<Pos>)
        ensures
            p == Self::current_cell_model(self.model()),
    ;

    /// Changes which cells the outputs collect, from the next output on.
    fn set_output_format(&mut self, output_format: OutputFormat)
        ensures
            final(self).model() == Self::format_model(old(self).model(), output_format@),
    ;

    /// Whether a tick is half done.
    fn is_updating(&self) -> (b: bool)
        ensures
            b == Self::updating_model(self.model()),
    ;

    /// Runs until the current tick completes.
    fn tick(&mut self)
        requires
            Self::can_step(old(self).model()),
        ensures
            final(self).model() == (Self::tick_fn())(old(self).model()),
    {
        loop
            invariant
                Self::can_step(self.model()),
                (Self::tick_fn())(self.model()) == (Self::tick_fn())(old(self).model()),
            decreases Self::pending(self.model()),
        {
            if self.step() == StepResult::TickComplete {
                return;
            }
        }
    }

    /// Runs `ticks` complete ticks.
    fn run(&mut self, ticks: u64)
        requires
            forall|i: nat|
                i < ticks ==> Self::can_step(#[trigger] iterate(Self::tick_fn(), old(self).model(), i)),
        ensures
            final(self).model() == iterate(Self::tick_fn(), old(self).model(), ticks as nat),
    {
        let mut done: u64 = 0;
        while done < ticks
            invariant
                done <= ticks,
                forall|i: nat|
                    i < ticks ==> Self::can_step(
                        #[trigger] iterate(Self::tick_fn(), old(self).model(), i),
                    ),
                self.model() == iterate(Self::tick_fn(), old(self).model(), done as nat),
            decreases ticks - done,
        {
            assert(Self::can_step(iterate(Self::tick_fn(), old(self).model(), done as nat)));
            self.tick();
            done = done + 1;
        }
    }

    /// Runs `ticks` complete ticks and collects the output of each.
    fn run_with_snapshots(&mut self, ticks: u64) -> (r: Vec<TickOutput>)
        requires
            forall|i: nat|
                i < ticks ==> Self::can_step(#[trigger] iterate(Self::tick_fn(), old(self).model(), i)),
        ensures
            final(self).model() == iterate(Self::tick_fn(), old(self).model(), ticks as nat),
            r@.len() == ticks,
            forall|i: int|
                0 <= i < ticks ==> (#[trigger] r@[i])@ == Self::output_model(
                    iterate(Self::tick_fn(), old(self).model(), (i + 1) as nat),
                ),
    {
        let mut snapshots: Vec<TickOutput> = Vec::new();
        let mut done: u64 = 0;
        while done < ticks
            invariant
                done <= ticks,
                forall|i: nat|
                    i < ticks ==> Self::can_step(
                        #[trigger] iterate(Self::tick_fn(), old(self).model(), i),
                    ),
                self.model() == iterate(Self::tick_fn(), old(self).model(), done as nat),
                snapshots@.len() == done,
                forall|i: int|
                    0 <= i < done ==> (#[trigger] snapshots@[i])@ == Self::output_model(
                        iterate(Self::tick_fn(), old(self).model(), (i + 1) as nat),
                    ),
            decreases ticks - done,
        {
            assert(Self::can_step(iterate(Self::tick_fn(), old(self).model(), done as nat)));
            self.tick();
            snapshots.push(self.last_output().clone());
            done = done + 1;
        }
        snapshots
    }

    /// Runs `ticks` complete ticks and collects the tester mismatches of each.
    fn run_with_verification(&mut self, ticks: u64) -> (r: Vec<TesterResult>)
        requires
            forall|i: nat|
                i < ticks ==> Self::can_step(#[trigger] iterate(Self::tick_fn(), old(self).model(), i)),
        ensures
            final(self).model() == iterate(Self::tick_fn(), old(self).model(), ticks as nat),
            r@ == verification_of(Self::verify_fn(), Self::tick_fn(), old(self).model(), ticks as nat),
    {
        let mut mismatches: Vec<TesterResult> = Vec::new();
        let mut done: u64 = 0;
        while done < ticks
            invariant
                done <= ticks,
                forall|i: nat|
                    i < ticks ==> Self::can_step(
                        #[trigger] iterate(Self::tick_fn(), old(self).model(), i),
                    ),
                self.model() == iterate(Self::tick_fn(), old(self).model(), done as nat),
                mismatches@ == verification_of(
                    Self::verify_fn(),
                    Self::tick_fn(),
                    old(self).model(),
                    done as nat,
                ),
            decreases ticks - done,
        {
            assert(Self::can_step(iterate(Self::tick_fn(), old(self).model(), done as nat)));
            self.tick();
            let found = self.verify_testers();
            let mut k: usize = 0;
            while k < found.len()
                invariant
                    k <= found@.len(),
                    mismatches@ == verification_of(
                        Self::verify_fn(),
                        Self::tick_fn(),
                        old(self).model(),
                        done as nat,
                    ) + found@.subrange(0, k as int),
                decreases found@.len() - k,
            {
                assert(found@.subrange(0, k + 1) =~= found@.subrange(0, k as int).push(
                    found@[k as int],
                ));
                mismatches.push(found[k]);
                k = k + 1;
            }
            assert(found@.subrange(0, found@.len() as int) =~= found@);
            done = done + 1;
        }
        mismatches
    }
}

} // verus!
