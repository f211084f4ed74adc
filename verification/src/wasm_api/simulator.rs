use vstd::prelude::*;

use crate::base::error::{FormatErrorView, ParseErrorView};
use crate::base::pos_set::lemma_push_to_set;
use crate::base::{ParseError, Pos, PosSet, SimulationError};
use crate::circuit::circuit::{component_cells, components_error, CircuitView};
use crate::circuit::component::InputView;
use crate::circuit::generator::GeneratorView;
use crate::circuit::wire::{Wire, WireKind};
use crate::circuit::{Circuit, Generator};
use crate::parser::json::{parse_pattern, pattern_of, pos_of};
use crate::parser::model::endpoints;
use crate::simulation::engine::{cell_lookup, FormatView, Simulator, StepResult};
use crate::simulation::engine_simple::{
    initial_view, lemma_can_run, lemma_step_wf, set_cell_view, sim_wf, step_view, ticks_view,
    SimView, SimulatorSimple,
};
use crate::wasm_api::types::{
    WasmCellState, WasmCircuitInput, WasmGeneratorInput, WasmStepRunResult, WasmTickResult,
    WasmWireInput, WasmWireKind,
};

verus! {

/// The wire kind of a wire given by the web page.
pub open spec fn wasm_kind(k: WasmWireKind) -> WireKind {
    match k {
        WasmWireKind::Positive => WireKind::Positive,
        WasmWireKind::Negative => WireKind::Negative,
    }
}

/// The wires given by the web page.
pub open spec fn wasm_wires(ws: Seq<WasmWireInput>) -> Seq<Wire> {
    ws.map_values(
        |w: WasmWireInput| Wire { src: pos_of(w.src), dst: pos_of(w.dst), kind: wasm_kind(w.kind) },
    )
}

/// The generators the first `n` entries describe, or the first format error.
pub open spec fn wasm_generators(gs: Seq<WasmGeneratorInput>, n: nat) -> Result<
    Seq<InputView>,
    FormatErrorView,
>
    decreases n,
{
    if n == 0 {
        Ok(Seq::empty())
    } else {
        match wasm_generators(gs, (n - 1) as nat) {
            Err(e) => Err(e),
            Ok(r) => match pattern_of(gs[n - 1].pattern@) {
                Err(e) => Err(e),
                Ok(p) => Ok(
                    r.push(
                        InputView::Generator(
                            GeneratorView {
                                target: pos_of(gs[n - 1].target),
                                pattern: p,
                                is_loop: gs[n - 1].is_loop,
                            },
                        ),
                    ),
                ),
            },
        }
    }
}

/// The error of building the circuit the web page gives, if any: the first
/// malformed generator pattern, else the first structural error.
pub open spec fn input_error(input: WasmCircuitInput) -> Option<ParseErrorView> {
    let ws = wasm_wires(input.wires@);
    match wasm_generators(input.generators@, input.generators@.len()) {
        Err(e) => Some(ParseErrorView::Format(e)),
        Ok(ins) => match components_error(endpoints(ws), ws, ins, Seq::empty()) {
            Some(e) => Some(ParseErrorView::Circuit(e)),
            None => None,
        },
    }
}

/// Whether `c` is the circuit the web page gives: its wires, its generators,
/// and as cells the wire endpoints and the generator targets. (Modules and
/// sub-circuits are not read.)
pub open spec fn input_builds(input: WasmCircuitInput, c: CircuitView) -> bool {
    let ws = wasm_wires(input.wires@);
    let ins = wasm_generators(input.generators@, input.generators@.len())->Ok_0;
    &&& c.cells.to_set() == component_cells(endpoints(ws), ins, Seq::empty())
    &&& c.wires == ws
    &&& c.inputs == ins
    &&& c.outputs.len() == 0
}

/// Builds the circuit the web page gives from its wires and generators.
pub fn build_circuit_from_input(input: WasmCircuitInput) -> (r: Result<Circuit, ParseError>)
    ensures
        match r {
            Ok(c) => input_error(input) is None && input_builds(input, c@) && c.spec_modules().len()
                == 0,
            Err(e) => input_error(input) == Some(e@),
        },
{
    let ghost ws = wasm_wires(input.wires@);
    let mut cells = PosSet::new();
    let mut wires: Vec<Wire> = Vec::new();
    let mut k: usize = 0;
    assert(endpoints(wires@) =~= Seq::<Pos>::empty());
    while k < input.wires.len()
        invariant
            k <= input.wires@.len(),
            ws == wasm_wires(input.wires@),
            wires@ == ws.subrange(0, k as int),
            cells@.to_set() == endpoints(wires@).to_set(),
            crate::base::pos_set::sorted_strict(cells@),
        decreases input.wires@.len() - k,
    {
        let wire_input = &input.wires[k];
        let src = Pos::new(wire_input.src[0], wire_input.src[1]);
        let dst = Pos::new(wire_input.dst[0], wire_input.dst[1]);
        let kind = match wire_input.kind {
            WasmWireKind::Positive => WireKind::Positive,
            WasmWireKind::Negative => WireKind::Negative,
        };
        let ghost before = wires@;
        cells.insert(src);
        cells.insert(dst);
        wires.push(Wire::new(src, dst, kind));
        proof {
            assert(wires@.drop_last() =~= before);
            lemma_push_to_set(endpoints(before), src);
            lemma_push_to_set(endpoints(before).push(src), dst);
        }
        k = k + 1;
        assert(wires@ =~= ws.subrange(0, k as int));
    }
    assert(wires@ =~= ws);
    let mut generators: Vec<Generator> = Vec::new();
    let mut k: usize = 0;
    assert(generators@.map_values(|g: Generator| InputView::Generator(g@)) =~= Seq::empty());
    while k < input.generators.len()
        invariant
            k <= input.generators@.len(),
            wasm_generators(input.generators@, k as nat) == Ok::<Seq<InputView>, FormatErrorView>(
                generators@.map_values(|g: Generator| InputView::Generator(g@)),
            ),
        decreases input.generators@.len() - k,
    {
        let gen_input = &input.generators[k];
        let target = Pos::new(gen_input.target[0], gen_input.target[1]);
        let pattern = match parse_pattern(gen_input.pattern.as_str()) {
            Ok(p) => p,
            Err(e) => {
                proof {
                    lemma_wasm_generators_err(input.generators@, (k + 1) as nat, input.generators@.len());
                }
                return Err(ParseError::Format(e));
            },
        };
        let ghost before = generators@;
        let g = Generator::new(target, pattern, gen_input.is_loop);
        generators.push(g);
        assert(generators@.map_values(|g: Generator| InputView::Generator(g@)) =~= before.map_values(
            |g: Generator| InputView::Generator(g@),
        ).push(InputView::Generator(g@)));
        k = k + 1;
    }
    let ghost ins = generators@.map_values(|g: Generator| InputView::Generator(g@));
    proof {
        crate::parser::model::lemma_components_error_cells(cells@, endpoints(ws), ws, ins, Seq::empty());
    }
    match Circuit::with_generators(cells, wires, generators) {
        Ok(c) => Ok(c),
        Err(e) => Err(ParseError::Circuit(e)),
    }
}

/// Once a generator fails, the error stays the first one.
proof fn lemma_wasm_generators_err(gs: Seq<WasmGeneratorInput>, m: nat, n: nat)
    requires
        m <= n,
        wasm_generators(gs, m) is Err,
    ensures
        wasm_generators(gs, n) == wasm_generators(gs, m),
    decreases n,
{
    if n > m {
        lemma_wasm_generators_err(gs, m, (n - 1) as nat);
    }
}

/// The value a simulator shows for a cell: what its output holds, `false`
/// when it holds nothing.
pub open spec fn shown_value(m: SimView, p: Pos) -> bool {
    match cell_lookup(m.output.cells, p) {
        Some(v) => v,
        None => false,
    }
}

/// The states of all cells, in cell order, as the output shows them.
pub open spec fn cell_states(m: SimView) -> Seq<WasmCellState> {
    m.circuit.cells.map_values(|p: Pos| WasmCellState { x: p.x, y: p.y, value: shown_value(m, p) })
}

/// The states reported are one per cell, in cell order: the `k`-th carries
/// the coordinates of the `k`-th cell, and it is on exactly when the output
/// shows that cell on.
pub proof fn lemma_cell_states(m: SimView)
    ensures
        cell_states(m).len() == m.circuit.cells.len(),
        forall|k: int|
            0 <= k < m.circuit.cells.len() ==> (#[trigger] cell_states(m)[k]).x == m.circuit.cells[k].x
                && cell_states(m)[k].y == m.circuit.cells[k].y && cell_states(m)[k].value == (cell_lookup(
                m.output.cells,
                m.circuit.cells[k],
            ) == Some(true)),
{
}

/// What running at most `max` steps does: the steps taken, whether a tick
/// completed (the run stops there), and the state reached.
pub open spec fn steps_run(m: SimView, max: nat) -> (nat, bool, SimView)
    decreases max,
{
    if max == 0 {
        (0, false, m)
    } else {
        let (r, m1) = step_view(m);
        if r == StepResult::TickComplete {
            (1, true, m1)
        } else {
            let (s, c, mf) = steps_run(m1, (max - 1) as nat);
            (s + 1, c, mf)
        }
    }
}

/// A simulator driven from the web page.
#[derive(Debug)]
pub struct WasmSimulator {
    simulator: SimulatorSimple,
}

impl WasmSimulator {
    /// The state of the simulator.
    pub closed spec fn model(&self) -> SimView {
        self.simulator.model()
    }

    /// A simulator of the circuit the web page gives.
    pub fn new(input: WasmCircuitInput) -> (r: Result<WasmSimulator, ParseError>)
        ensures
            match r {
                Ok(s) => {
                    &&& input_error(input) is None
                    &&& input_builds(input, s.model().circuit)
                    &&& s.model() == initial_view(s.model().source, FormatView::AllCell)
                },
                Err(e) => input_error(input) == Some(e@),
            },
    {
        let circuit = build_circuit_from_input(input)?;
        Ok(WasmSimulator { simulator: SimulatorSimple::new(circuit) })
    }

    /// A simulator of `circuit`.
    pub fn from_circuit(circuit: Circuit) -> (s: WasmSimulator)
        ensures
            s.model() == initial_view(circuit, FormatView::AllCell),
    {
        WasmSimulator { simulator: SimulatorSimple::new(circuit) }
    }

    /// Runs `ticks` complete ticks and returns the state reached. (A circuit
    /// without cells cannot run a tick.)
    pub fn run(&mut self, ticks: u32) -> (r: WasmTickResult)
        requires
            ticks > 0 ==> old(self).model().circuit.cells.len() > 0,
            old(self).model().tick + ticks <= u64::MAX,
        ensures
            final(self).model() == ticks_view(old(self).model(), ticks as nat),
            r.tick == final(self).model().tick,
            r.cells@ == cell_states(final(self).model()),
    {
        self.simulator.wf();
        proof {
            if ticks > 0 {
                lemma_can_run(self.simulator.model(), ticks as nat);
            }
        }
        let ghost m0 = self.simulator.model();
        self.simulator.run(ticks as u64);
        proof {
            crate::simulation::engine_simple::lemma_iterate_ticks(m0, ticks as nat);
        }
        self.build_tick_result()
    }

    /// Processes at most `max_steps` cells, stopping after the one that
    /// completes a tick. (A circuit without cells cannot take a step.)
    pub fn run_steps(&mut self, max_steps: u32) -> (r: WasmStepRunResult)
        requires
            max_steps > 0 ==> old(self).model().circuit.cells.len() > 0 && old(self).model().tick
                < u64::MAX,
        ensures
            (r.steps_executed as nat, r.completed, final(self).model()) == steps_run(
                old(self).model(),
                max_steps as nat,
            ),
            r.ticks_completed == (if r.completed {
                1u32
            } else {
                0u32
            }),
    {
        self.simulator.wf();
        let mut steps_executed: u32 = 0;
        let mut ticks_completed: u32 = 0;
        let mut i: u32 = 0;
        while i < max_steps
            invariant
                i <= max_steps,
                steps_executed == i,
                ticks_completed == 0,
                i < max_steps ==> <SimulatorSimple as Simulator>::can_step(self.model()),
                steps_run(old(self).model(), max_steps as nat) == ({
                    let rest = steps_run(self.model(), (max_steps - i) as nat);
                    ((rest.0 + i) as nat, rest.1, rest.2)
                }),
            decreases max_steps - i,
        {
            let ghost before = self.model();
            let result = self.simulator.step();
            proof {
                lemma_step_wf(before);
            }
            steps_executed = steps_executed + 1;
            if result == StepResult::TickComplete {
                ticks_completed = ticks_completed + 1;
                return WasmStepRunResult { steps_executed, ticks_completed, completed: true };
            }
            i = i + 1;
        }
        WasmStepRunResult { steps_executed, ticks_completed, completed: ticks_completed > 0 }
    }

    /// The number of completed ticks, cut to 32 bits.
    pub fn current_tick(&self) -> (t: u32)
        ensures
            t == self.model().tick as u32,
    {
        #[verifier::truncate]
        (self.simulator.current_tick() as u32)
    }

    /// The states of all cells, in cell order.
    pub fn get_state(&self) -> (s: Vec<WasmCellState>)
        ensures
            s@ == cell_states(self.model()),
    {
        self.build_cell_states()
    }

    /// The value the output shows for the cell at `(x, y)`, if it shows it.
    pub fn get_cell(&self, x: i32, y: i32) -> (v: Option<bool>)
        ensures
            v == cell_lookup(self.model().output.cells, Pos { x, y }),
    {
        let pos = Pos::new(x, y);
        match self.simulator.last_output().cells.get(&pos) {
            Some(v) => Some(*v),
            None => None,
        }
    }

    /// Sets the value of the cell at `(x, y)`.
    pub fn set_cell(&mut self, x: i32, y: i32, value: bool) -> (r: Result<(), SimulationError>)
        ensures
            match set_cell_view(old(self).model(), Pos { x, y }, value) {
                Ok(m) => r is Ok && final(self).model() == m,
                Err(e) => r == Err::<(), SimulationError>(e) && final(self).model() == old(
                    self,
                ).model(),
            },
    {
        let pos = Pos::new(x, y);
        self.simulator.set_cell(pos, value)
    }

    /// The states of all cells, in cell order.
    fn build_cell_states(&self) -> (s: Vec<WasmCellState>)
        ensures
            s@ == cell_states(self.model()),
    {
        let cells = self.simulator.circuit().sorted_cells();
        let output = self.simulator.last_output();
        let mut states: Vec<WasmCellState> = Vec::new();
        let mut k: usize = 0;
        while k < cells.len()
            invariant
                k <= cells@.len(),
                cells@ == self.model().circuit.cells,
                output@ == self.model().output,
                states@ == cells@.subrange(0, k as int).map_values(
                    |p: Pos| WasmCellState { x: p.x, y: p.y, value: shown_value(self.model(), p) },
                ),
            decreases cells@.len() - k,
        {
            let pos = cells[k];
            let value = match output.cells.get(&pos) {
                Some(v) => *v,
                None => false,
            };
            states.push(WasmCellState { x: pos.x, y: pos.y, value });
            k = k + 1;
            assert(states@ =~= cells@.subrange(0, k as int).map_values(
                |p: Pos| WasmCellState { x: p.x, y: p.y, value: shown_value(self.model(), p) },
            ));
        }
        assert(cells@.subrange(0, cells@.len() as int) =~= cells@);
        states
    }

    /// The state reached: the tick count and the states of all cells.
    fn build_tick_result(&self) -> (r: WasmTickResult)
        ensures
            r.tick == self.model().tick,
            r.cells@ == cell_states(self.model()),
    {
        WasmTickResult { tick: self.simulator.current_tick(), cells: self.build_cell_states() }
    }
}

} // verus!
