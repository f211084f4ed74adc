use vstd::prelude::*;

use crate::base::pos::pos_lt;
use crate::base::pos_set::sorted_strict;
use crate::base::{Pos, SimulationError};
use crate::circuit::circuit::{
    circuit_wf, incoming_of, is_input_target, lemma_incoming_members, lemma_module_smaller,
    module_views, CircuitView,
};
use crate::circuit::module::{lemma_sub_circuit_smaller, ModuleView, ResolvedModule};
use crate::circuit::component::{input_target, input_value, output_target, InputView, OutputView};
use crate::circuit::tester::tester_expected;
use crate::circuit::wire::propagate_value;
use crate::circuit::{Circuit, InputComponent, Output, OutputComponent};
use crate::simulation::engine::{
    format_shows, iterate, verification_of, CellMap, FormatView, OutputFormat, Simulator,
    StepResult, TesterResult, TickOutput, TickOutputView,
};

verus! {

/// What a simple simulator is.
pub struct SimView {
    /// The circuit.
    pub circuit: CircuitView,
    /// The circuit itself, with its module instances.
    pub source: Circuit,
    /// The value of each cell (in cell order) at the end of the last tick.
    pub prev: Seq<bool>,
    /// The current value of each cell (in cell order).
    pub cur: Seq<bool>,
    /// The number of completed ticks.
    pub tick: u64,
    /// The place of the next cell to process.
    pub index: nat,
    /// The cached output.
    pub output: TickOutputView,
    /// Which cells an output collects.
    pub format: FormatView,
}

/// The facts every simple simulator keeps.
pub open spec fn sim_wf(v: SimView) -> bool {
    &&& circuit_wf(v.circuit)
    &&& v.source@ == v.circuit
    &&& v.prev.len() == v.circuit.cells.len()
    &&& v.cur.len() == v.circuit.cells.len()
    &&& (v.index < v.circuit.cells.len() || (v.index == 0 && v.circuit.cells.len() == 0))
}

/// The value that `vals` (given in cell order) holds for the cell `p`.
pub open spec fn value_of(cells: Seq<Pos>, vals: Seq<bool>, p: Pos) -> bool {
    vals[cells.index_of(p)]
}

/// The value the last of the first `n` input components aimed at `p` injects at
/// `tick`, if one is.
pub open spec fn input_drive(ins: Seq<InputView>, p: Pos, tick: nat, n: nat) -> Option<bool>
    decreases n,
{
    if n == 0 {
        None
    } else if input_target(ins[n - 1]) == p {
        Some(input_value(ins[n - 1], tick))
    } else {
        input_drive(ins, p, tick, (n - 1) as nat)
    }
}

/// `cur` once the first `n` input components have written their value for `tick`.
pub open spec fn applied_upto(c: CircuitView, cur: Seq<bool>, tick: nat, n: nat) -> Seq<bool> {
    Seq::new(
        cur.len(),
        |k: int|
            match input_drive(c.inputs, c.cells[k], tick, n) {
                Some(v) => v,
                None => cur[k],
            },
    )
}

/// `cur` once every input component has written its value for `tick`.
pub open spec fn applied_inputs(c: CircuitView, cur: Seq<bool>, tick: nat) -> Seq<bool> {
    applied_upto(c, cur, tick, c.inputs.len())
}

/// The value wire `w` delivers. A wire that goes backward in the cell order
/// (its destination comes first) delivers its source's value of the previous
/// tick; any other wire delivers the current one.
pub open spec fn wire_signal(c: CircuitView, prev: Seq<bool>, cur: Seq<bool>, w: crate::circuit::Wire) -> bool {
    propagate_value(
        w.kind,
        if pos_lt(w.dst, w.src) {
            value_of(c.cells, prev, w.src)
        } else {
            value_of(c.cells, cur, w.src)
        },
    )
}

/// The new value of the `i`-th cell, when no module drives it: the OR of
/// what its wires deliver; a cell without wires keeps the value an input
/// component gave it, or else its value of the previous tick.
pub open spec fn wire_next(c: CircuitView, prev: Seq<bool>, cur: Seq<bool>, i: int) -> bool {
    let p = c.cells[i];
    let inc = incoming_of(c.wires, p);
    if inc.len() == 0 {
        if is_input_target(c.inputs, p) {
            cur[i]
        } else {
            prev[i]
        }
    } else {
        exists|k: int| 0 <= k < inc.len() && #[trigger] wire_signal(c, prev, cur, c.wires[inc[k] as int])
    }
}

/// The value of the cell `p` in `vals` (given in cell order); a position that
/// is not a cell reads `false`.
pub open spec fn port_value(cells: Seq<Pos>, vals: Seq<bool>, p: Pos) -> bool {
    if cells.contains(p) {
        value_of(cells, vals, p)
    } else {
        false
    }
}

/// The values of the cells `ports`, in order.
pub open spec fn port_values(cells: Seq<Pos>, vals: Seq<bool>, ports: Seq<Pos>) -> Seq<bool> {
    Seq::new(ports.len(), |k: int| port_value(cells, vals, ports[k]))
}

/// The first place among the first `n` of `ports` that holds `p`.
pub open spec fn find_port(ports: Seq<Pos>, p: Pos, n: nat) -> Option<int>
    decreases n,
{
    if n == 0 {
        None
    } else {
        match find_port(ports, p, (n - 1) as nat) {
            Some(j) => Some(j),
            None => if ports[n - 1] == p {
                Some(n - 1)
            } else {
                None
            },
        }
    }
}

/// The first of the first `n` modules that has `p` among its output cells,
/// with the first place of `p` among them.
pub open spec fn find_module_output(mods: Seq<ModuleView>, p: Pos, n: nat) -> Option<(int, int)>
    decreases n,
{
    if n == 0 {
        None
    } else {
        match find_module_output(mods, p, (n - 1) as nat) {
            Some(r) => Some(r),
            None => match find_port(mods[n - 1].output, p, mods[n - 1].output.len()) {
                Some(j) => Some(((n - 1) as int, j)),
                None => None,
            },
        }
    }
}

/// `vals` once the first `n` cells of `ports` that are cells have taken the
/// values `ins`, in order.
pub open spec fn set_ports(cells: Seq<Pos>, vals: Seq<bool>, ports: Seq<Pos>, ins: Seq<bool>, n: nat) -> Seq<
    bool,
>
    decreases n,
{
    if n == 0 {
        vals
    } else {
        let v = set_ports(cells, vals, ports, ins, (n - 1) as nat);
        if cells.contains(ports[n - 1]) {
            v.update(cells.index_of(ports[n - 1]), ins[n - 1])
        } else {
            v
        }
    }
}

/// The values a module's sub-circuit starts a tick with: every cell `false`,
/// and each input interface cell holding the value of the module input at
/// the same place.
pub open spec fn sub_start(sub: CircuitView, m: ModuleView, ins: Seq<bool>) -> Seq<bool> {
    let n = if m.sub_input.len() < ins.len() {
        m.sub_input.len()
    } else {
        ins.len()
    };
    set_ports(sub.cells, Seq::new(sub.cells.len(), |k: int| false), m.sub_input, ins, n)
}

/// The values once the first `n` cells of `c` have taken their new values
/// for `tick`, starting from `cur`.
pub open spec fn tick_upto(c: Circuit, prev: Seq<bool>, cur: Seq<bool>, tick: nat, n: nat) -> Seq<bool>
    decreases c, n, 2nat,
{
    if n == 0 {
        cur
    } else {
        let v = tick_upto(c, prev, cur, tick, (n - 1) as nat);
        v.update(n - 1, cell_next(c, prev, v, tick, (n - 1) as nat))
    }
}

/// What the `j`-th output of the module `m` gives at `tick` when its inputs
/// hold `ins`: its sub-circuit runs one tick from `sub_start` (its input
/// components first, as in any tick) and the output takes the value of the
/// `j`-th output interface cell. A module thus computes a function of its
/// inputs alone. An output without an interface cell gives `false`.
pub open spec fn module_value(m: ResolvedModule, ins: Seq<bool>, tick: nat, j: int) -> bool
    decreases m, 0nat, 0nat,
{
    if 0 <= j < m@.sub_output.len() {
        proof {
            lemma_sub_circuit_smaller(m);
        }
        let sub = m.spec_circuit();
        let start = sub_start(sub@, m@, ins);
        let vals = tick_upto(sub, start, applied_inputs(sub@, start, tick), tick, sub@.cells.len());
        port_value(sub@.cells, vals, m@.sub_output[j])
    } else {
        false
    }
}

/// The new value of the `i`-th cell of `c` at `tick`: an output cell of a
/// module takes what the module computes from the current values of its
/// input cells; any other cell follows `wire_next`.
pub open spec fn cell_next(c: Circuit, prev: Seq<bool>, cur: Seq<bool>, tick: nat, i: nat) -> bool
    decreases c, i + 1, 1nat,
{
    let mods = c.spec_modules();
    match find_module_output(module_views(mods), c@.cells[i as int], mods.len()) {
        Some((mi, j)) => if 0 <= mi < mods.len() {
            proof {
                lemma_module_smaller(c, mi);
            }
            module_value(mods[mi], port_values(c@.cells, cur, mods[mi]@.input), tick, j)
        } else {
            false
        },
        None => wire_next(c@, prev, cur, i as int),
    }
}

/// The entries an output of format `f` takes from the first `n` cells.
pub open spec fn output_entries(cells: Seq<Pos>, vals: Seq<bool>, f: FormatView, n: nat) -> Seq<
    (Pos, bool),
>
    decreases n,
{
    if n == 0 {
        Seq::empty()
    } else {
        let r = output_entries(cells, vals, f, (n - 1) as nat);
        if format_shows(f, cells[n - 1]) {
            r.push((cells[n - 1], vals[n - 1]))
        } else {
            r
        }
    }
}

/// The output of the cells with values `vals`, numbered `tick`.
pub open spec fn output_of(c: CircuitView, vals: Seq<bool>, f: FormatView, tick: u64) -> TickOutputView {
    TickOutputView { tick, cells: output_entries(c.cells, vals, f, c.cells.len()) }
}

/// What one step does: at the start of a tick the input components write
/// their values; then the next cell takes its new value; after the last cell
/// the tick completes, its values become the previous ones and the output is
/// rebuilt.
pub open spec fn step_view(v: SimView) -> (StepResult, SimView) {
    let cur0 = if v.index == 0 {
        applied_inputs(v.circuit, v.cur, v.tick as nat)
    } else {
        v.cur
    };
    let cur1 = cur0.update(v.index as int, cell_next(v.source, v.prev, cur0, v.tick as nat, v.index));
    if v.index + 1 >= v.circuit.cells.len() {
        (
            StepResult::TickComplete,
            SimView {
                circuit: v.circuit,
                source: v.source,
                prev: cur1,
                cur: cur1,
                tick: (v.tick + 1) as u64,
                index: 0,
                output: output_of(v.circuit, cur1, v.format, v.tick),
                format: v.format,
            },
        )
    } else {
        (
            StepResult::Continue,
            SimView {
                circuit: v.circuit,
                source: v.source,
                prev: v.prev,
                cur: cur1,
                tick: v.tick,
                index: v.index + 1,
                output: v.output,
                format: v.format,
            },
        )
    }
}

/// The state once the current tick has completed.
pub open spec fn finish_tick(v: SimView) -> SimView
    decreases v.circuit.cells.len() - v.index,
{
    let (r, w) = step_view(v);
    if r == StepResult::Continue && v.index < w.index < v.circuit.cells.len() {
        finish_tick(w)
    } else {
        w
    }
}

/// The state after `n` complete ticks.
pub open spec fn ticks_view(v: SimView, n: nat) -> SimView
    decreases n,
{
    if n == 0 {
        v
    } else {
        finish_tick(ticks_view(v, (n - 1) as nat))
    }
}

/// The mismatch the output component `o` reports for the last completed tick.
pub open spec fn tester_mismatch(v: SimView, o: OutputView) -> Option<TesterResult> {
    match o {
        OutputView::Tester(t) => match tester_expected(t, (v.tick - 1) as nat) {
            Some(e) => {
                let actual = value_of(v.circuit.cells, v.cur, t.target);
                if actual != e {
                    Some(
                        TesterResult {
                            target: t.target,
                            tick: (v.tick - 1) as u64,
                            expected: e,
                            actual,
                        },
                    )
                } else {
                    None
                }
            },
            None => None,
        },
    }
}

/// The mismatches of the first `n` output components, in order.
pub open spec fn mismatches_upto(v: SimView, n: nat) -> Seq<TesterResult>
    decreases n,
{
    if n == 0 {
        Seq::empty()
    } else {
        let r = mismatches_upto(v, (n - 1) as nat);
        match tester_mismatch(v, v.circuit.outputs[n - 1]) {
            Some(m) => r.push(m),
            None => r,
        }
    }
}

/// The tester mismatches of the last completed tick (none before the first).
pub open spec fn verify_view(v: SimView) -> Seq<TesterResult> {
    if v.tick == 0 {
        Seq::empty()
    } else {
        mismatches_upto(v, v.circuit.outputs.len())
    }
}

/// The mismatches of `n` complete ticks, tick after tick.
pub open spec fn verification_view(v: SimView, n: nat) -> Seq<TesterResult>
    decreases n,
{
    if n == 0 {
        Seq::empty()
    } else {
        verification_view(v, (n - 1) as nat) + verify_view(ticks_view(v, n))
    }
}

/// `v` with its output rebuilt from the current values.
pub open spec fn replay_view(v: SimView) -> SimView {
    SimView { output: output_of(v.circuit, v.cur, v.format, v.tick), ..v }
}

/// What `set_cell` does: the cell takes the value now and for the previous
/// tick, and the output is rebuilt; an unknown cell is an error.
pub open spec fn set_cell_view(v: SimView, pos: Pos, value: bool) -> Result<SimView, SimulationError> {
    if v.circuit.cells.contains(pos) {
        let i = v.circuit.cells.index_of(pos);
        Ok(
            replay_view(
                SimView { prev: v.prev.update(i, value), cur: v.cur.update(i, value), ..v },
            ),
        )
    } else {
        Err(SimulationError::UnknownCell(pos))
    }
}

/// The first state of a simulator of circuit `c`: every cell is `false`.
pub open spec fn initial_view(c: Circuit, f: FormatView) -> SimView {
    let zeros = Seq::new(c@.cells.len(), |k: int| false);
    SimView {
        circuit: c@,
        source: c,
        prev: zeros,
        cur: zeros,
        tick: 0,
        index: 0,
        output: output_of(c@, zeros, f, 0),
        format: f,
    }
}

/// In a strictly increasing sequence, the place of an element is the one it
/// occurs at.
pub proof fn lemma_index_of_sorted(s: Seq<Pos>, i: int)
    requires
        sorted_strict(s),
        0 <= i < s.len(),
    ensures
        s.index_of(s[i]) == i,
{
    let j = s.index_of(s[i]);
    assert(0 <= j < s.len() && s[j] == s[i]);
    if j < i {
        assert(pos_lt(s[j], s[i]));
    } else if i < j {
        assert(pos_lt(s[i], s[j]));
    }
}

/// A step keeps the facts of a simulator and leaves the circuit alone; it
/// completes the tick exactly when it processes the last cell, and the output
/// it then builds is numbered by the tick just run.
pub proof fn lemma_step_wf(v: SimView)
    requires
        sim_wf(v),
        v.circuit.cells.len() > 0,
    ensures
        sim_wf(step_view(v).1),
        step_view(v).1.circuit == v.circuit,
        step_view(v).1.format == v.format,
        step_view(v).0 == StepResult::Continue ==> step_view(v).1.index == v.index + 1
            && step_view(v).1.tick == v.tick,
        step_view(v).0 == StepResult::TickComplete ==> step_view(v).1.index == 0
            && step_view(v).1.tick == (v.tick + 1) as u64 && step_view(v).1.output.tick == v.tick,
        (step_view(v).0 == StepResult::TickComplete) == (v.index + 1 == v.circuit.cells.len()),
{
}

/// Finishing a tick keeps the facts of a simulator, leaves the circuit alone
/// and counts one more tick; the values it ends with become the previous
/// ones, and the output shows them under the number of the tick just run.
pub proof fn lemma_finish_tick(v: SimView)
    requires
        sim_wf(v),
        v.circuit.cells.len() > 0,
    ensures
        sim_wf(finish_tick(v)),
        finish_tick(v).circuit == v.circuit,
        finish_tick(v).format == v.format,
        finish_tick(v).index == 0,
        finish_tick(v).tick == (v.tick + 1) as u64,
        finish_tick(v).prev == finish_tick(v).cur,
        finish_tick(v).output == output_of(v.circuit, finish_tick(v).cur, v.format, v.tick),
    decreases v.circuit.cells.len() - v.index,
{
    lemma_step_wf(v);
    let (r, w) = step_view(v);
    if r == StepResult::Continue && v.index < w.index < v.circuit.cells.len() {
        lemma_finish_tick(w);
    }
}

/// `n` ticks keep the facts of a simulator, leave the circuit alone and count
/// `n` more ticks, when the counter has room for them.
pub proof fn lemma_ticks_view(v: SimView, n: nat)
    requires
        sim_wf(v),
        v.circuit.cells.len() > 0,
        v.tick + n <= u64::MAX,
    ensures
        sim_wf(ticks_view(v, n)),
        ticks_view(v, n).circuit == v.circuit,
        ticks_view(v, n).format == v.format,
        ticks_view(v, n).tick == v.tick + n,
        n > 0 ==> ticks_view(v, n).index == 0,
    decreases n,
{
    if n > 0 {
        lemma_ticks_view(v, (n - 1) as nat);
        lemma_finish_tick(ticks_view(v, (n - 1) as nat));
    }
}

/// Running ticks one after the other is what `ticks_view` describes.
pub proof fn lemma_iterate_ticks(v: SimView, n: nat)
    ensures
        iterate(<SimulatorSimple as Simulator>::tick_fn(), v, n) == ticks_view(v, n),
        verification_of(
            <SimulatorSimple as Simulator>::verify_fn(),
            <SimulatorSimple as Simulator>::tick_fn(),
            v,
            n,
        ) == verification_view(v, n),
    decreases n,
{
    if n > 0 {
        lemma_iterate_ticks(v, (n - 1) as nat);
        assert((<SimulatorSimple as Simulator>::tick_fn())(ticks_view(v, (n - 1) as nat)) == finish_tick(
            ticks_view(v, (n - 1) as nat),
        ));
        assert((<SimulatorSimple as Simulator>::verify_fn())(ticks_view(v, n)) == verify_view(
            ticks_view(v, n),
        ));
    }
}

/// `n` ticks may be run from a simulator with cells whose counter has room
/// for them.
pub proof fn lemma_can_run(v: SimView, n: nat)
    requires
        sim_wf(v),
        v.circuit.cells.len() > 0,
        v.tick + n <= u64::MAX,
    ensures
        forall|i: nat|
            i < n ==> <SimulatorSimple as Simulator>::can_step(
                #[trigger] iterate(<SimulatorSimple as Simulator>::tick_fn(), v, i),
            ),
{
    assert forall|i: nat| i < n implies <SimulatorSimple as Simulator>::can_step(
        #[trigger] iterate(<SimulatorSimple as Simulator>::tick_fn(), v, i),
    ) by {
        lemma_ticks_view(v, i);
        lemma_iterate_ticks(v, i);
    }
}

/// Pausing between two cells changes nothing: after a step that leaves the
/// tick unfinished, the rest of the tick ends where the whole tick would have.
pub proof fn lemma_step_resumes(v: SimView)
    requires
        sim_wf(v),
        v.circuit.cells.len() > 0,
        step_view(v).0 == StepResult::Continue,
    ensures
        finish_tick(step_view(v).1) == finish_tick(v),
        !(step_view(v).1.index == 0),
{
    lemma_step_wf(v);
}

/// The output of a tick numbers it by the tick just completed: after `i + 1`
/// ticks from a state between ticks, the output is numbered `tick + i`.
pub proof fn lemma_snapshot_tick(v: SimView, i: nat)
    requires
        sim_wf(v),
        v.circuit.cells.len() > 0,
        v.tick + i + 1 <= u64::MAX,
    ensures
        ticks_view(v, i + 1).output.tick == v.tick + i,
{
    lemma_ticks_view(v, i);
    lemma_finish_tick(ticks_view(v, i));
}

/// An output holds exactly the cells its format collects, each with its value.
pub proof fn lemma_output_lookup(c: CircuitView, vals: Seq<bool>, f: FormatView, t: u64, p: Pos)
    requires
        sorted_strict(c.cells),
        vals.len() == c.cells.len(),
    ensures
        crate::simulation::engine::cell_lookup(output_of(c, vals, f, t).cells, p) == (if c.cells.contains(p)
            && format_shows(f, p) {
            Some(value_of(c.cells, vals, p))
        } else {
            None
        }),
{
    lemma_output_entries(c.cells, vals, f, p, c.cells.len());
    if c.cells.contains(p) {
        let i = c.cells.index_of(p);
        lemma_index_of_sorted(c.cells, i);
    }
}

/// A viewport output holds a cell exactly when the cell lies inside one of
/// the rectangles (both bounds included, on both axes), and then with its
/// value; a cell outside every rectangle is never in it.
pub proof fn lemma_viewport_output(c: CircuitView, vals: Seq<bool>, rects: Seq<crate::base::Rect>, t: u64, p: Pos)
    requires
        sorted_strict(c.cells),
        vals.len() == c.cells.len(),
    ensures
        crate::simulation::engine::cell_lookup(output_of(c, vals, FormatView::ViewPort(rects), t).cells, p)
            is Some ==> c.cells.contains(p) && exists|k: int|
            0 <= k < rects.len() && (#[trigger] rects[k]).min.x <= p.x <= rects[k].max.x && rects[k].min.y <= p.y
                <= rects[k].max.y,
        (forall|k: int|
            0 <= k < rects.len() ==> !((#[trigger] rects[k]).min.x <= p.x <= rects[k].max.x && rects[k].min.y
                <= p.y <= rects[k].max.y)) ==> crate::simulation::engine::cell_lookup(
            output_of(c, vals, FormatView::ViewPort(rects), t).cells,
            p,
        ) is None,
        c.cells.contains(p) && (exists|k: int|
            0 <= k < rects.len() && (#[trigger] rects[k]).min.x <= p.x <= rects[k].max.x && rects[k].min.y <= p.y
                <= rects[k].max.y) ==> crate::simulation::engine::cell_lookup(
            output_of(c, vals, FormatView::ViewPort(rects), t).cells,
            p,
        ) == Some(value_of(c.cells, vals, p)),
{
    lemma_output_lookup(c, vals, FormatView::ViewPort(rects), t, p);
    assert forall|k: int| 0 <= k < rects.len() implies (crate::base::rect::rect_contains(
        #[trigger] rects[k],
        p,
    ) <==> (rects[k].min.x <= p.x <= rects[k].max.x && rects[k].min.y <= p.y <= rects[k].max.y)) by {
        crate::base::rect::lemma_rect_contains(rects[k], p);
    }
    if crate::simulation::engine::in_some_rect(rects, p) {
        let k = choose|k: int| 0 <= k < rects.len() && crate::base::rect::rect_contains(#[trigger] rects[k], p);
        assert(rects[k].min.x <= p.x <= rects[k].max.x && rects[k].min.y <= p.y <= rects[k].max.y);
    }
    if exists|k: int|
        0 <= k < rects.len() && (#[trigger] rects[k]).min.x <= p.x <= rects[k].max.x && rects[k].min.y <= p.y
            <= rects[k].max.y {
        let k = choose|k: int|
            0 <= k < rects.len() && (#[trigger] rects[k]).min.x <= p.x <= rects[k].max.x && rects[k].min.y <= p.y
                <= rects[k].max.y;
        assert(crate::base::rect::rect_contains(rects[k], p));
    }
}

/// Writing interface values in order: when the first `n` ports are distinct,
/// the cell of the `k`-th of them holds the `k`-th value, whatever the cells
/// held before, and the length is kept.
pub proof fn lemma_set_ports(cells: Seq<Pos>, vals: Seq<bool>, ports: Seq<Pos>, ins: Seq<bool>, n: nat, k: int)
    requires
        vals.len() == cells.len(),
        n <= ports.len(),
        n <= ins.len(),
        0 <= k < n,
        cells.contains(ports[k]),
        forall|i: int, j: int| 0 <= i < j < n ==> ports[i] != ports[j],
    ensures
        set_ports(cells, vals, ports, ins, n).len() == cells.len(),
        set_ports(cells, vals, ports, ins, n)[cells.index_of(ports[k])] == ins[k],
    decreases n,
{
    lemma_set_ports_len(cells, vals, ports, ins, n);
    if k < n - 1 {
        lemma_set_ports(cells, vals, ports, ins, (n - 1) as nat, k);
        let q = ports[n - 1];
        if cells.contains(q) {
            assert(cells[cells.index_of(q)] == q);
            assert(cells[cells.index_of(ports[k])] == ports[k]);
        }
    } else {
        lemma_set_ports_len(cells, vals, ports, ins, (n - 1) as nat);
    }
}

/// Writing interface values keeps the length.
proof fn lemma_set_ports_len(cells: Seq<Pos>, vals: Seq<bool>, ports: Seq<Pos>, ins: Seq<bool>, n: nat)
    requires
        vals.len() == cells.len(),
        n <= ports.len(),
    ensures
        set_ports(cells, vals, ports, ins, n).len() == cells.len(),
    decreases n,
{
    if n > 0 {
        lemma_set_ports_len(cells, vals, ports, ins, (n - 1) as nat);
    }
}

/// A module's sub-circuit starts its tick with the `k`-th module input on the
/// `k`-th input interface cell, for every input that has one (the interface
/// cells being distinct cells of the sub-circuit).
pub proof fn lemma_sub_start_inputs(sub: CircuitView, m: ModuleView, ins: Seq<bool>, k: int)
    requires
        0 <= k < m.sub_input.len(),
        k < ins.len(),
        sub.cells.contains(m.sub_input[k]),
        forall|i: int, j: int| 0 <= i < j < m.sub_input.len() ==> m.sub_input[i] != m.sub_input[j],
    ensures
        sub_start(sub, m, ins).len() == sub.cells.len(),
        value_of(sub.cells, sub_start(sub, m, ins), m.sub_input[k]) == ins[k],
{
    let n: nat = if m.sub_input.len() < ins.len() {
        m.sub_input.len()
    } else {
        ins.len()
    };
    lemma_set_ports(sub.cells, Seq::new(sub.cells.len(), |i: int| false), m.sub_input, ins, n, k);
}

/// Later cells of a tick leave an earlier cell alone: after `n` cells, the
/// `i`-th holds what it took in its own turn.
pub proof fn lemma_tick_upto_keeps(c: Circuit, prev: Seq<bool>, cur: Seq<bool>, tick: nat, n: nat, i: int)
    requires
        n <= cur.len(),
        0 <= i < n,
    ensures
        tick_upto(c, prev, cur, tick, n).len() == cur.len(),
        tick_upto(c, prev, cur, tick, n)[i] == cell_next(
            c,
            prev,
            tick_upto(c, prev, cur, tick, i as nat),
            tick,
            i as nat,
        ),
    decreases n,
{
    lemma_tick_upto_len(c, prev, cur, tick, n);
    if i < n - 1 {
        lemma_tick_upto_keeps(c, prev, cur, tick, (n - 1) as nat, i);
    } else {
        lemma_tick_upto_len(c, prev, cur, tick, (n - 1) as nat);
    }
}

/// A tick keeps the number of values.
proof fn lemma_tick_upto_len(c: Circuit, prev: Seq<bool>, cur: Seq<bool>, tick: nat, n: nat)
    requires
        n <= cur.len(),
    ensures
        tick_upto(c, prev, cur, tick, n).len() == cur.len(),
    decreases n,
{
    if n > 0 {
        lemma_tick_upto_len(c, prev, cur, tick, (n - 1) as nat);
    }
}

/// No input component among the first `n` aims at `p`, so none drives it.
proof fn lemma_input_drive_none(ins: Seq<InputView>, p: Pos, tick: nat, n: nat)
    requires
        n <= ins.len(),
        forall|k: int| 0 <= k < n ==> input_target(#[trigger] ins[k]) != p,
    ensures
        input_drive(ins, p, tick, n) is None,
    decreases n,
{
    if n > 0 {
        lemma_input_drive_none(ins, p, tick, (n - 1) as nat);
    }
}

/// A module passes an input straight through when an output interface cell
/// is also the `k`-th input interface cell and nothing inside the sub-circuit
/// drives that cell (no wire, input component or module): the output then
/// gives the `k`-th module input. So the `k`-th module input reaches the
/// `k`-th input interface cell, and the `j`-th output reads the `j`-th output
/// interface cell.
pub proof fn lemma_module_passes_through(m: ResolvedModule, ins: Seq<bool>, tick: nat, j: int, k: int)
    requires
        0 <= j < m@.sub_output.len(),
        0 <= k < m@.sub_input.len(),
        k < ins.len(),
        m@.sub_output[j] == m@.sub_input[k],
        forall|a: int, b: int| 0 <= a < b < m@.sub_input.len() ==> m@.sub_input[a] != m@.sub_input[b],
        m.spec_circuit()@.cells.contains(m@.sub_input[k]),
        !crate::circuit::circuit::has_incoming(m.spec_circuit()@.wires, m@.sub_input[k]),
        !is_input_target(m.spec_circuit()@.inputs, m@.sub_input[k]),
        m.spec_circuit().spec_modules().len() == 0,
    ensures
        module_value(m, ins, tick, j) == ins[k],
{
    let sub = m.spec_circuit();
    let sc = sub@;
    let p = m@.sub_input[k];
    let start = sub_start(sc, m@, ins);
    lemma_sub_start_inputs(sc, m@, ins, k);
    let idx = sc.cells.index_of(p);
    assert(0 <= idx < sc.cells.len() && sc.cells[idx] == p);
    let cur0 = applied_inputs(sc, start, tick);
    assert forall|q: int| 0 <= q < sc.inputs.len() implies input_target(#[trigger] sc.inputs[q]) != p by {
        if input_target(sc.inputs[q]) == p {
            assert(is_input_target(sc.inputs, p));
        }
    }
    lemma_input_drive_none(sc.inputs, p, tick, sc.inputs.len());
    assert(cur0.len() == start.len());
    assert(cur0[idx] == start[idx]);
    let n = sc.cells.len();
    lemma_tick_upto_keeps(sub, start, cur0, tick, n, idx);
    let before = tick_upto(sub, start, cur0, tick, idx as nat);
    lemma_tick_upto_len(sub, start, cur0, tick, idx as nat);
    assert forall|q: int| 0 <= q < sc.wires.len() implies (#[trigger] sc.wires[q]).dst != p by {
        if sc.wires[q].dst == p {
            assert(crate::circuit::circuit::has_incoming(sc.wires, p));
        }
    }
    crate::circuit::circuit::lemma_incoming_empty(sc.wires, p, sc.wires.len());
    assert(module_views(sub.spec_modules()).len() == 0);
    assert(find_module_output(module_views(sub.spec_modules()), p, 0) is None);
    assert(cell_next(sub, start, before, tick, idx as nat) == start[idx]);
    let vals = tick_upto(sub, start, cur0, tick, n);
    assert(vals[idx] == ins[k]);
    assert(port_value(sc.cells, vals, p) == ins[k]);
}

/// Setting a cell shows at once: a known cell that the output format collects
/// reads back the value just set, and setting an unknown cell is refused.
pub proof fn lemma_set_cell_shows(v: SimView, pos: Pos, value: bool)
    requires
        sim_wf(v),
    ensures
        v.circuit.cells.contains(pos) && format_shows(v.format, pos) ==> (set_cell_view(v, pos, value)
            matches Ok(w) && crate::simulation::engine::cell_lookup(w.output.cells, pos) == Some(
            value,
        )),
        !v.circuit.cells.contains(pos) ==> set_cell_view(v, pos, value) == Err::<SimView, SimulationError>(
            SimulationError::UnknownCell(pos),
        ),
{
    if v.circuit.cells.contains(pos) {
        let i = v.circuit.cells.index_of(pos);
        let cur = v.cur.update(i, value);
        lemma_output_lookup(v.circuit, cur, v.format, v.tick, pos);
    }
}

/// A module output cell takes, in its step, what its module computes from the
/// current values of the module's input cells: the module's sub-circuit, run
/// for one tick from `sub_start`, read at the matching output interface cell.
/// Any other cell follows its wires.
pub proof fn lemma_module_cell(v: SimView)
    requires
        sim_wf(v),
        v.circuit.cells.len() > 0,
    ensures
        ({
            let cur0 = if v.index == 0 {
                applied_inputs(v.circuit, v.cur, v.tick as nat)
            } else {
                v.cur
            };
            let mods = v.source.spec_modules();
            let p = v.circuit.cells[v.index as int];
            step_view(v).1.cur[v.index as int] == match find_module_output(
                module_views(mods),
                p,
                mods.len(),
            ) {
                Some((mi, j)) => module_value(
                    mods[mi],
                    port_values(v.circuit.cells, cur0, mods[mi]@.input),
                    v.tick as nat,
                    j,
                ),
                None => wire_next(v.circuit, v.prev, cur0, v.index as int),
            }
        }),
{
    let mods = v.source.spec_modules();
    let p = v.circuit.cells[v.index as int];
    match find_module_output(module_views(mods), p, mods.len()) {
        Some((mi, j)) => {
            lemma_find_module_in_range(module_views(mods), p, mods.len());
        },
        None => {},
    }
}

/// A module found holding `p` is one of the modules searched, and `p` is at
/// the place found among its outputs.
proof fn lemma_find_module_in_range(mods: Seq<ModuleView>, p: Pos, n: nat)
    requires
        n <= mods.len(),
    ensures
        find_module_output(mods, p, n) matches Some((mi, j)) ==> 0 <= mi < n && 0 <= j
            < mods[mi].output.len() && mods[mi].output[j] == p,
    decreases n,
{
    if n > 0 {
        lemma_find_module_in_range(mods, p, (n - 1) as nat);
        let outs = mods[n - 1].output;
        lemma_find_port_in_range(outs, p, outs.len());
    }
}

/// A place found holding `p` is one of the places searched, and holds `p`.
proof fn lemma_find_port_in_range(ports: Seq<Pos>, p: Pos, n: nat)
    requires
        n <= ports.len(),
    ensures
        find_port(ports, p, n) matches Some(j) ==> 0 <= j < n && ports[j] == p,
    decreases n,
{
    if n > 0 {
        lemma_find_port_in_range(ports, p, (n - 1) as nat);
    }
}

/// The entries taken from the first `n` cells hold `p` exactly when it is one
/// of them and the format collects it, with its value.
proof fn lemma_output_entries(cells: Seq<Pos>, vals: Seq<bool>, f: FormatView, p: Pos, n: nat)
    requires
        sorted_strict(cells),
        vals.len() == cells.len(),
        n <= cells.len(),
    ensures
        crate::simulation::engine::cell_lookup(output_entries(cells, vals, f, n), p) == (if (exists|i: int|
            0 <= i < n && cells[i] == p) && format_shows(f, p) {
            Some(vals[cells.index_of(p)])
        } else {
            None
        }),
    decreases n,
{
    if n > 0 {
        lemma_output_entries(cells, vals, f, p, (n - 1) as nat);
        let r = output_entries(cells, vals, f, (n - 1) as nat);
        let q = cells[n - 1];
        if format_shows(f, q) {
            crate::simulation::engine::lemma_lookup_push(r, (q, vals[n - 1]), p);
            if q == p {
                lemma_index_of_sorted(cells, n - 1);
                if exists|i: int| 0 <= i < n - 1 && cells[i] == p {
                    let i0 = choose|i: int| 0 <= i < n - 1 && cells[i] == p;
                    assert(pos_lt(cells[i0], cells[n - 1]));
                }
            } else {
                if exists|i: int| 0 <= i < n && cells[i] == p {
                    let i0 = choose|i: int| 0 <= i < n && cells[i] == p;
                    assert(i0 != n - 1);
                }
            }
        } else {
            if exists|i: int| 0 <= i < n && cells[i] == p {
                let i0 = choose|i: int| 0 <= i < n && cells[i] == p;
                if i0 == n - 1 {
                    assert(q == p);
                } else {
                    assert(0 <= i0 < n - 1 && cells[i0] == p);
                }
            }
        }
    }
}

/// The value of the cell `p` in `vals`; `false` when `p` is not a cell.
fn read_port(c: &Circuit, vals: &Vec<bool>, p: Pos) -> (b: bool)
    requires
        vals@.len() == c@.cells.len(),
    ensures
        b == port_value(c@.cells, vals@, p),
{
    c.wf();
    match c.cell_index(p) {
        Some(i) => {
            proof {
                lemma_index_of_sorted(c@.cells, i as int);
            }
            vals[i]
        },
        None => false,
    }
}

/// The values of the cells `ports`, in order.
fn read_ports(c: &Circuit, vals: &Vec<bool>, ports: &[Pos]) -> (r: Vec<bool>)
    requires
        vals@.len() == c@.cells.len(),
    ensures
        r@ == port_values(c@.cells, vals@, ports@),
{
    let mut r: Vec<bool> = Vec::new();
    let mut k: usize = 0;
    while k < ports.len()
        invariant
            k <= ports@.len(),
            vals@.len() == c@.cells.len(),
            r@ == port_values(c@.cells, vals@, ports@.subrange(0, k as int)),
        decreases ports@.len() - k,
    {
        let b = read_port(c, vals, ports[k]);
        r.push(b);
        k = k + 1;
        assert(r@ =~= port_values(c@.cells, vals@, ports@.subrange(0, k as int)));
    }
    assert(ports@.subrange(0, ports@.len() as int) =~= ports@);
    r
}

/// The first place of `p` among `ports`.
fn find_port_exec(ports: &[Pos], p: Pos) -> (r: Option<usize>)
    ensures
        match r {
            Some(j) => find_port(ports@, p, ports@.len()) == Some(j as int) && j < ports@.len(),
            None => find_port(ports@, p, ports@.len()) is None,
        },
{
    let mut j: usize = 0;
    while j < ports.len()
        invariant
            j <= ports@.len(),
            find_port(ports@, p, j as nat) is None,
        decreases ports@.len() - j,
    {
        if ports[j] == p {
            proof {
                lemma_find_port_after(ports@, p, (j + 1) as nat, ports@.len());
            }
            return Some(j);
        }
        j = j + 1;
    }
    None
}

/// Once found among the first `n`, a place stays the first among more.
proof fn lemma_find_port_after(ports: Seq<Pos>, p: Pos, n: nat, m: nat)
    requires
        n <= m <= ports.len(),
        find_port(ports, p, n) is Some,
    ensures
        find_port(ports, p, m) == find_port(ports, p, n),
    decreases m - n,
{
    if m > n {
        lemma_find_port_after(ports, p, n, (m - 1) as nat);
    }
}

/// Once found among the first `n` modules, an output stays the first among
/// more.
proof fn lemma_find_module_after(mods: Seq<ModuleView>, p: Pos, n: nat, m: nat)
    requires
        n <= m <= mods.len(),
        find_module_output(mods, p, n) is Some,
    ensures
        find_module_output(mods, p, m) == find_module_output(mods, p, n),
    decreases m - n,
{
    if m > n {
        lemma_find_module_after(mods, p, n, (m - 1) as nat);
    }
}

/// The first module of `mods` with `p` among its output cells, and the
/// place of `p` there.
fn find_module_output_exec(mods: &[ResolvedModule], p: Pos) -> (r: Option<(usize, usize)>)
    ensures
        match r {
            Some((mi, j)) => find_module_output(module_views(mods@), p, mods@.len()) == Some(
                (mi as int, j as int),
            ) && mi < mods@.len(),
            None => find_module_output(module_views(mods@), p, mods@.len()) is None,
        },
{
    let ghost mv = module_views(mods@);
    let mut mi: usize = 0;
    while mi < mods.len()
        invariant
            mi <= mods@.len(),
            mv == module_views(mods@),
            find_module_output(mv, p, mi as nat) is None,
        decreases mods@.len() - mi,
    {
        assert(mv[mi as int] == mods@[mi as int]@);
        let outs = mods[mi].output();
        match find_port_exec(outs, p) {
            Some(j) => {
                proof {
                    lemma_find_module_after(mv, p, (mi + 1) as nat, mods@.len());
                }
                return Some((mi, j));
            },
            None => {},
        }
        mi = mi + 1;
    }
    None
}

/// Writes into `vals` the value of every input component of `c` for `tick`.
fn apply_inputs_to(c: &Circuit, vals: &mut Vec<bool>, tick: u64)
    requires
        old(vals)@.len() == c@.cells.len(),
    ensures
        final(vals)@ == applied_inputs(c@, old(vals)@, tick as nat),
{
    c.wf();
    let ghost cv = c@;
    let ghost cur0 = vals@;
    let inputs = c.inputs();
    let mut k: usize = 0;
    assert(applied_upto(cv, cur0, tick as nat, 0) =~= cur0);
    while k < inputs.len()
        invariant
            k <= cv.inputs.len(),
            cv == c@,
            circuit_wf(cv),
            crate::circuit::circuit::input_views(inputs@) == cv.inputs,
            cur0.len() == cv.cells.len(),
            vals@ == applied_upto(cv, cur0, tick as nat, k as nat),
        decreases cv.inputs.len() - k,
    {
        assert(crate::circuit::circuit::input_views(inputs@)[k as int] == inputs@[k as int]@);
        let target = inputs[k].target();
        let value = inputs[k].value_at(tick);
        match c.cell_index(target) {
            Some(index) => {
                vals.set(index, value);
                proof {
                    lemma_index_of_sorted(cv.cells, index as int);
                    assert forall|j: int| 0 <= j < cv.cells.len() && j != index implies cv.cells[j]
                        != target by {
                        lemma_index_of_sorted(cv.cells, j);
                    }
                }
            },
            None => {
                assert(false);
            },
        }
        assert(vals@ =~= applied_upto(cv, cur0, tick as nat, (k + 1) as nat));
        k = k + 1;
    }
}

/// The new value of the `i`-th cell of `c` at `tick`, as `cell_next` says.
fn next_value(c: &Circuit, prev: &Vec<bool>, cur: &Vec<bool>, tick: u64, i: usize) -> (b: bool)
    requires
        i < c@.cells.len(),
        prev@.len() == c@.cells.len(),
        cur@.len() == c@.cells.len(),
    ensures
        b == cell_next(*c, prev@, cur@, tick as nat, i as nat),
    decreases *c, i + 1, 1nat,
{
    c.wf();
    let ghost cv = c@;
    let cell = c.sorted_cells()[i];
    let mods = c.modules();
    match find_module_output_exec(mods, cell) {
        Some((mi, j)) => {
            let ins = read_ports(c, cur, mods[mi].input());
            proof {
                lemma_module_smaller(*c, mi as int);
            }
            return eval_module(&mods[mi], &ins, tick, j);
        },
        None => {},
    }
    let incoming = c.incoming_indices(cell);
    let wires_len = c.wires().len();
    assert(wires_len == cv.wires.len());
    proof {
        lemma_incoming_members(cv.wires, cell, cv.wires.len());
    }
    if incoming.len() == 0 {
        if drives_cell(c, cell) {
            cur[i]
        } else {
            prev[i]
        }
    } else {
        let mut next: bool = false;
        let mut j: usize = 0;
        while j < incoming.len() && !next
            invariant
                j <= incoming@.len(),
                incoming@ == incoming_of(cv.wires, cell),
                cv == c@,
                circuit_wf(cv),
                prev@.len() == cv.cells.len(),
                cur@.len() == cv.cells.len(),
                forall|k: int| 0 <= k < incoming@.len() ==> (#[trigger] incoming@[k]) < cv.wires.len(),
                next == exists|k: int|
                    0 <= k < j && #[trigger] wire_signal(cv, prev@, cur@, cv.wires[incoming@[k] as int]),
            decreases incoming@.len() - j,
        {
            let wire = c.wires()[incoming[j]];
            let src_idx = match c.cell_index(wire.src) {
                Some(x) => x,
                None => {
                    assert(false);
                    0
                },
            };
            proof {
                lemma_index_of_sorted(cv.cells, src_idx as int);
            }
            let src_value = if wire.dst.lt(&wire.src) {
                prev[src_idx]
            } else {
                cur[src_idx]
            };
            next = wire.propagate(src_value);
            assert(next == wire_signal(cv, prev@, cur@, cv.wires[incoming@[j as int] as int]));
            j = j + 1;
        }
        next
    }
}

/// Whether some input component of `c` aims at `pos`.
fn drives_cell(c: &Circuit, pos: Pos) -> (b: bool)
    ensures
        b == is_input_target(c@.inputs, pos),
{
    let inputs = c.inputs();
    let mut k: usize = 0;
    while k < inputs.len()
        invariant
            k <= inputs@.len(),
            crate::circuit::circuit::input_views(inputs@) == c@.inputs,
            forall|j: int| 0 <= j < k ==> input_target(#[trigger] c@.inputs[j]) != pos,
        decreases inputs@.len() - k,
    {
        assert(crate::circuit::circuit::input_views(inputs@)[k as int] == inputs@[k as int]@);
        if inputs[k].target() == pos {
            assert(input_target(c@.inputs[k as int]) == pos);
            return true;
        }
        k = k + 1;
    }
    false
}

/// Gives every cell of `c` its new value for `tick`, in cell order.
fn run_cells(c: &Circuit, prev: &Vec<bool>, cur: &mut Vec<bool>, tick: u64)
    requires
        prev@.len() == c@.cells.len(),
        old(cur)@.len() == c@.cells.len(),
    ensures
        final(cur)@ == tick_upto(*c, prev@, old(cur)@, tick as nat, c@.cells.len()),
        final(cur)@.len() == c@.cells.len(),
    decreases *c, c@.cells.len(), 2nat,
{
    let n = c.sorted_cells().len();
    let mut i: usize = 0;
    while i < n
        invariant
            i <= n,
            n == c@.cells.len(),
            prev@.len() == n,
            cur@.len() == n,
            cur@ == tick_upto(*c, prev@, old(cur)@, tick as nat, i as nat),
        decreases n - i,
    {
        let v = next_value(c, prev, cur, tick, i);
        cur.set(i, v);
        i = i + 1;
    }
}

/// What the `j`-th output of the module `m` gives at `tick` when its inputs
/// hold `ins`, as `module_value` says.
fn eval_module(m: &ResolvedModule, ins: &Vec<bool>, tick: u64, j: usize) -> (b: bool)
    ensures
        b == module_value(*m, ins@, tick as nat, j as int),
    decreases *m, 0nat, 0nat,
{
    let sub_output = m.sub_output();
    if j >= sub_output.len() {
        return false;
    }
    let sub = m.circuit();
    sub.wf();
    let ghost sv = sub@;
    let n = sub.sorted_cells().len();
    let mut start: Vec<bool> = Vec::new();
    let mut i: usize = 0;
    while i < n
        invariant
            i <= n,
            start@ == Seq::new(i as nat, |k: int| false),
        decreases n - i,
    {
        start.push(false);
        i = i + 1;
        assert(start@ =~= Seq::new(i as nat, |k: int| false));
    }
    let sub_input = m.sub_input();
    let count = if sub_input.len() < ins.len() {
        sub_input.len()
    } else {
        ins.len()
    };
    let ghost zeros = start@;
    let mut k: usize = 0;
    while k < count
        invariant
            k <= count,
            count <= sub_input@.len(),
            count <= ins@.len(),
            n == sv.cells.len(),
            sv == sub@,
            sorted_strict(sv.cells),
            start@ == set_ports(sv.cells, zeros, sub_input@, ins@, k as nat),
            start@.len() == n,
        decreases count - k,
    {
        match sub.cell_index(sub_input[k]) {
            Some(x) => {
                proof {
                    lemma_index_of_sorted(sv.cells, x as int);
                }
                start.set(x, ins[k]);
            },
            None => {},
        }
        k = k + 1;
    }
    assert(start@ == sub_start(sv, m@, ins@));
    let mut cur = start.clone();
    assert(cur@ =~= start@);
    apply_inputs_to(sub, &mut cur, tick);
    proof {
        lemma_sub_circuit_smaller(*m);
    }
    run_cells(sub, &start, &mut cur, tick);
    read_port(sub, &cur, sub_output[j])
}

/// A simulator that processes the cells one at a time, in increasing order,
/// and can be paused between any two cells.
#[derive(Debug)]
pub struct SimulatorSimple {
    circuit: Circuit,
    /// The value of each cell (in cell order) at the end of the last tick.
    prev_cell_values: Vec<bool>,
    /// The current value of each cell (in cell order).
    cell_values: Vec<bool>,
    tick: u64,
    cell_index: usize,
    last_output: TickOutput,
    output_format: OutputFormat,
}

impl SimulatorSimple {
    /// Both value vectors have one entry per cell, and the next cell exists
    /// unless there is none.
    #[verifier::type_invariant]
    closed spec fn well_formed(self) -> bool {
        &&& self.prev_cell_values@.len() == self.circuit@.cells.len()
        &&& self.cell_values@.len() == self.circuit@.cells.len()
        &&& (self.cell_index < self.circuit@.cells.len() || (self.cell_index == 0
            && self.circuit@.cells.len() == 0))
    }

    /// The facts every simple simulator keeps hold of this one.
    pub fn wf(&self)
        ensures
            sim_wf(self.model()),
    {
        proof {
            use_type_invariant(self);
        }
        self.circuit.wf();
    }

    /// A simulator of `circuit` whose outputs collect every cell.
    pub fn new(circuit: Circuit) -> (s: SimulatorSimple)
        ensures
            s.model() == initial_view(circuit, FormatView::AllCell),
            sim_wf(s.model()),
    {
        Self::with_output_format(circuit, OutputFormat::AllCell)
    }

    /// A simulator of `circuit` whose outputs collect the cells `output_format`
    /// names. Every cell starts at `false`; no tick is half done.
    pub fn with_output_format(circuit: Circuit, output_format: OutputFormat) -> (s: SimulatorSimple)
        ensures
            s.model() == initial_view(circuit, output_format@),
            sim_wf(s.model()),
    {
        circuit.wf();
        let n = circuit.sorted_cells().len();
        let mut zeros: Vec<bool> = Vec::new();
        let mut i: usize = 0;
        while i < n
            invariant
                i <= n,
                zeros@ == Seq::new(i as nat, |k: int| false),
            decreases n - i,
        {
            zeros.push(false);
            i = i + 1;
            assert(zeros@ =~= Seq::new(i as nat, |k: int| false));
        }
        let prev = zeros.clone();
        assert(prev@ =~= zeros@);
        let mut sim = SimulatorSimple {
            circuit,
            prev_cell_values: prev,
            cell_values: zeros,
            tick: 0,
            cell_index: 0,
            last_output: TickOutput { tick: 0, cells: CellMap::new() },
            output_format,
        };
        sim.replay_tick();
        sim
    }

    /// Whether `format` collects `pos`.
    fn shows(format: &OutputFormat, pos: Pos) -> (b: bool)
        ensures
            b == format_shows(format@, pos),
    {
        match format {
            OutputFormat::AllCell => true,
            OutputFormat::ViewPort(rects) => {
                let mut k: usize = 0;
                while k < rects.len()
                    invariant
                        k <= rects@.len(),
                        format@ == FormatView::ViewPort(rects@),
                        forall|j: int|
                            0 <= j < k ==> !crate::base::rect::rect_contains(#[trigger] rects@[j], pos),
                    decreases rects@.len() - k,
                {
                    if rects[k].contains(pos) {
                        assert(crate::base::rect::rect_contains(rects@[k as int], pos));
                        assert(crate::simulation::engine::in_some_rect(rects@, pos));
                        return true;
                    }
                    k = k + 1;
                }
                false
            },
        }
    }

    /// Whether some input component aims at `pos`.
    fn drives(&self, pos: Pos) -> (b: bool)
        ensures
            b == is_input_target(self.circuit@.inputs, pos),
    {
        let inputs = self.circuit.inputs();
        let mut k: usize = 0;
        while k < inputs.len()
            invariant
                k <= inputs@.len(),
                crate::circuit::circuit::input_views(inputs@) == self.circuit@.inputs,
                forall|j: int| 0 <= j < k ==> input_target(#[trigger] self.circuit@.inputs[j]) != pos,
            decreases inputs@.len() - k,
        {
            assert(crate::circuit::circuit::input_views(inputs@)[k as int] == inputs@[k as int]@);
            if inputs[k].target() == pos {
                assert(input_target(self.circuit@.inputs[k as int]) == pos);
                return true;
            }
            k = k + 1;
        }
        false
    }

    /// The place of `pos` in the cell order; `pos` must be a cell.
    fn index_of_cell(&self, pos: Pos) -> (i: usize)
        requires
            self.circuit@.cells.contains(pos),
        ensures
            i < self.circuit@.cells.len(),
            i == self.circuit@.cells.index_of(pos),
    {
        self.circuit.wf();
        match self.circuit.cell_index(pos) {
            Some(i) => {
                proof {
                    lemma_index_of_sorted(self.circuit@.cells, i as int);
                }
                i
            },
            None => {
                assert(false);
                0
            },
        }
    }

    /// The output of the current values.
    fn build_output(&self) -> (o: TickOutput)
        ensures
            o@ == output_of(self.circuit@, self.cell_values@, self.output_format@, self.tick),
    {
        proof {
            use_type_invariant(self);
        }
        let cells = self.circuit.sorted_cells();
        let mut entries: Vec<(Pos, bool)> = Vec::new();
        let mut i: usize = 0;
        while i < cells.len()
            invariant
                i <= cells@.len(),
                cells@ == self.circuit@.cells,
                self.cell_values@.len() == cells@.len(),
                entries@ == output_entries(cells@, self.cell_values@, self.output_format@, i as nat),
            decreases cells@.len() - i,
        {
            let pos = cells[i];
            if Self::shows(&self.output_format, pos) {
                entries.push((pos, self.cell_values[i]));
            }
            i = i + 1;
        }
        TickOutput { tick: self.tick, cells: CellMap::from_entries(entries) }
    }

    /// Writes the value of every input component for the current tick.
    fn apply_inputs(&mut self)
        ensures
            final(self).model() == (SimView {
                cur: applied_inputs(old(self).circuit@, old(self).cell_values@, old(self).tick as nat),
                ..old(self).model()
            }),
    {
        proof {
            use_type_invariant(&*self);
        }
        self.circuit.wf();
        let ghost c = self.circuit@;
        let ghost cur0 = self.cell_values@;
        let mut k: usize = 0;
        assert(applied_upto(c, cur0, self.tick as nat, 0) =~= cur0);
        while k < self.circuit.inputs().len()
            invariant
                k <= c.inputs.len(),
                c == self.circuit@,
                circuit_wf(c),
                cur0.len() == c.cells.len(),
                self.prev_cell_values@ == old(self).prev_cell_values@,
                self.tick == old(self).tick,
                self.cell_index == old(self).cell_index,
                self.last_output@ == old(self).last_output@,
                self.output_format@ == old(self).output_format@,
                self.circuit@ == old(self).circuit@,
                self.circuit == old(self).circuit,
                self.cell_values@ == applied_upto(c, cur0, self.tick as nat, k as nat),
            decreases c.inputs.len() - k,
        {
            proof {
                use_type_invariant(&*self);
            }
            let inputs = self.circuit.inputs();
            assert(crate::circuit::circuit::input_views(inputs@)[k as int] == inputs@[k as int]@);
            let target = inputs[k].target();
            let value = inputs[k].value_at(self.tick);
            let index = self.index_of_cell(target);
            self.cell_values[index] = value;
            proof {
                lemma_index_of_sorted(c.cells, index as int);
                assert forall|j: int| 0 <= j < c.cells.len() && j != index implies c.cells[j] != target by {
                    lemma_index_of_sorted(c.cells, j);
                }
            }
            assert(self.cell_values@ =~= applied_upto(c, cur0, self.tick as nat, (k + 1) as nat));
            k = k + 1;
        }
    }
}

impl Simulator for SimulatorSimple {
    type Model = SimView;

    closed spec fn model(&self) -> SimView {
        SimView {
            circuit: self.circuit@,
            source: self.circuit,
            prev: self.prev_cell_values@,
            cur: self.cell_values@,
            tick: self.tick,
            index: self.cell_index as nat,
            output: self.last_output@,
            format: self.output_format@,
        }
    }

    open spec fn can_step(m: SimView) -> bool {
        &&& sim_wf(m)
        &&& m.circuit.cells.len() > 0
        &&& m.tick < u64::MAX
    }

    open spec fn pending(m: SimView) -> nat {
        (m.circuit.cells.len() - m.index) as nat
    }

    open spec fn tick_fn() -> spec_fn(SimView) -> SimView {
        |m: SimView| finish_tick(m)
    }

    open spec fn tick_count(m: SimView) -> u64 {
        m.tick
    }

    open spec fn output_model(m: SimView) -> TickOutputView {
        m.output
    }

    open spec fn verify_fn() -> spec_fn(SimView) -> Seq<TesterResult> {
        |m: SimView| verify_view(m)
    }

    open spec fn circuit_model(m: SimView) -> CircuitView {
        m.circuit
    }

    open spec fn current_cell_model(m: SimView) -> Option<Pos> {
        if m.index < m.circuit.cells.len() {
            Some(m.circuit.cells[m.index as int])
        } else {
            None
        }
    }

    open spec fn updating_model(m: SimView) -> bool {
        m.index > 0
    }

    open spec fn set_cell_model(m: SimView, pos: Pos, value: bool) -> Result<SimView, SimulationError> {
        set_cell_view(m, pos, value)
    }

    open spec fn replay_model(m: SimView) -> SimView {
        replay_view(m)
    }

    open spec fn format_model(m: SimView, f: FormatView) -> SimView {
        SimView { format: f, ..m }
    }

    fn step(&mut self) -> (r: StepResult)
        ensures
            (r, final(self).model()) == step_view(old(self).model()),
    {
        proof {
            use_type_invariant(&*self);
        }
        self.circuit.wf();
        if self.cell_index == 0 {
            self.apply_inputs();
        }
        proof {
            use_type_invariant(&*self);
        }
        let ghost c = self.circuit@;
        let ghost prev = self.prev_cell_values@;
        let ghost cur0 = self.cell_values@;
        let cell_idx = self.cell_index;
        let cell_count = self.circuit.sorted_cells().len();
        assert(cell_idx < cell_count);
        let v = next_value(&self.circuit, &self.prev_cell_values, &self.cell_values, self.tick, cell_idx);
        self.cell_values[cell_idx] = v;
        assert(self.cell_values@ =~= cur0.update(
            cell_idx as int,
            cell_next(self.circuit, prev, cur0, self.tick as nat, cell_idx as nat),
        ));
        let next_index = cell_idx + 1;
        if next_index >= self.circuit.sorted_cells().len() {
            self.complete_tick();
            assert(step_view(old(self).model()) == (StepResult::TickComplete, self.model()));
            proof {
                assert((Self::tick_fn())(old(self).model()) == finish_tick(old(self).model()));
            }
            StepResult::TickComplete
        } else {
            self.cell_index = next_index;
            assert(step_view(old(self).model()) == (StepResult::Continue, self.model()));
            proof {
                assert((Self::tick_fn())(old(self).model()) == finish_tick(old(self).model()));
                assert((Self::tick_fn())(self.model()) == finish_tick(self.model()));
                assert(finish_tick(old(self).model()) == finish_tick(self.model()));
                assert(Self::pending(self.model()) < Self::pending(old(self).model()));
                assert(Self::can_step(self.model()));
            }
            StepResult::Continue
        }
    }

    fn verify_testers(&self) -> (r: Vec<TesterResult>) {
        proof {
            use_type_invariant(self);
        }
        self.circuit.wf();
        let mut mismatches: Vec<TesterResult> = Vec::new();
        assert((Self::verify_fn())(self.model()) == verify_view(self.model()));
        if self.tick == 0 {
            return mismatches;
        }
        let observed_tick = self.tick - 1;
        let outputs = self.circuit.outputs();
        let mut k: usize = 0;
        while k < outputs.len()
            invariant
                k <= outputs@.len(),
                self.tick > 0,
                observed_tick == self.tick - 1,
                crate::circuit::circuit::output_views(outputs@) == self.circuit@.outputs,
                circuit_wf(self.circuit@),
                self.cell_values@.len() == self.circuit@.cells.len(),
                mismatches@ == mismatches_upto(self.model(), k as nat),
            decreases outputs@.len() - k,
        {
            assert(crate::circuit::circuit::output_views(outputs@)[k as int] == outputs@[k as int]@);
            match &outputs[k] {
                Output::Tester(tester) => {
                    if let Some(expected) = tester.expected_at(observed_tick) {
                        let index = self.index_of_cell(tester.target());
                        let actual = self.cell_values[index];
                        if actual != expected {
                            mismatches.push(
                                TesterResult { target: tester.target(), tick: observed_tick, expected, actual },
                            );
                        }
                    }
                },
            }
            k = k + 1;
        }
        mismatches
    }

    fn circuit(&self) -> (c: &Circuit) {
        &self.circuit
    }

    fn set_cell(&mut self, pos: Pos, value: bool) -> (r: Result<(), SimulationError>) {
        proof {
            use_type_invariant(&*self);
        }
        self.circuit.wf();
        match self.circuit.cell_index(pos) {
            None => Err(SimulationError::UnknownCell(pos)),
            Some(index) => {
                proof {
                    lemma_index_of_sorted(self.circuit@.cells, index as int);
                }
                self.cell_values[index] = value;
                self.prev_cell_values[index] = value;
                self.replay_tick();
                Ok(())
            },
        }
    }

    fn last_output(&self) -> (o: &TickOutput) {
        &self.last_output
    }

    fn replay_tick(&mut self) {
        proof {
            use_type_invariant(&*self);
        }
        self.last_output = self.build_output();
    }

    fn current_tick(&self) -> (t: u64) {
        self.tick
    }

    fn current_cell(&self) -> (p: Option<Pos>) {
        let cells = self.circuit.sorted_cells();
        if self.cell_index < cells.len() {
            Some(cells[self.cell_index])
        } else {
            None
        }
    }

    fn set_output_format(&mut self, output_format: OutputFormat) {
        proof {
            use_type_invariant(&*self);
        }
        self.output_format = output_format;
    }

    fn is_updating(&self) -> (b: bool) {
        self.cell_index > 0
    }
}

impl SimulatorSimple {
    /// Completes the tick: the current values become the previous ones, the
    /// output is rebuilt and the tick counter moves on.
    fn complete_tick(&mut self)
        requires
            old(self).tick < u64::MAX,
            old(self).circuit@.cells.len() > 0,
        ensures
            final(self).model() == (SimView {
                prev: old(self).cell_values@,
                tick: (old(self).tick + 1) as u64,
                index: 0,
                output: output_of(
                    old(self).circuit@,
                    old(self).cell_values@,
                    old(self).output_format@,
                    old(self).tick,
                ),
                ..old(self).model()
            }),
    {
        proof {
            use_type_invariant(&*self);
        }
        let copy = self.cell_values.clone();
        assert(copy@ =~= self.cell_values@);
        self.prev_cell_values = copy;
        self.last_output = self.build_output();
        self.cell_index = 0;
        self.tick = self.tick + 1;
    }
}

} // verus!
