use vstd::prelude::*;

use crate::base::pos_set::{lemma_push_to_set, search_sorted, sorted_strict};
use crate::base::{CircuitError, Pos, PosSet};
use crate::circuit::component::{
    input_ok, input_target, output_ok, output_target, Input, InputComponent, InputView, Output,
    OutputComponent, OutputView,
};
use crate::circuit::generator::Generator;
use crate::circuit::module::{ModuleView, ResolvedModule};
use crate::circuit::wire::Wire;

verus! {

/// What a circuit is: its cells in increasing order, its wires and its components.
pub struct CircuitView {
    pub cells: Seq<Pos>,
    pub wires: Seq<Wire>,
    pub inputs: Seq<InputView>,
    pub outputs: Seq<OutputView>,
}

/// The first error among the checks `check(0)`, ..., `check(n - 1)`, taken in order.
pub open spec fn first_some<A>(n: nat, check: spec_fn(int) -> Option<A>) -> Option<A>
    decreases n,
{
    if n == 0 {
        None
    } else {
        match first_some((n - 1) as nat, check) {
            Some(e) => Some(e),
            None => check(n - 1),
        }
    }
}

/// Whether some wire ends at `p`.
pub open spec fn has_incoming(ws: Seq<Wire>, p: Pos) -> bool {
    exists|j: int| 0 <= j < ws.len() && (#[trigger] ws[j]).dst == p
}

/// The indices of the wires that end at `p`, among the first `n` wires, in order.
pub open spec fn incoming_upto(ws: Seq<Wire>, p: Pos, n: nat) -> Seq<usize>
    decreases n,
{
    if n == 0 {
        Seq::empty()
    } else {
        let r = incoming_upto(ws, p, (n - 1) as nat);
        if ws[n - 1].dst == p {
            r.push((n - 1) as usize)
        } else {
            r
        }
    }
}

/// The indices of the wires that end at `p`, in increasing order.
pub open spec fn incoming_of(ws: Seq<Wire>, p: Pos) -> Seq<usize> {
    incoming_upto(ws, p, ws.len())
}

/// The error of the `i`-th wire, if any: a self-loop, an endpoint that is not a
/// cell, or the same source and destination as an earlier wire.
pub open spec fn wire_error(cells: Seq<Pos>, ws: Seq<Wire>, i: int) -> Option<CircuitError> {
    let w = ws[i];
    if w.src == w.dst {
        Some(CircuitError::SelfLoop { src: w.src, dst: w.dst })
    } else if !cells.contains(w.src) {
        Some(CircuitError::WireSrcNotFound(w.src))
    } else if !cells.contains(w.dst) {
        Some(CircuitError::WireDstNotFound(w.dst))
    } else if exists|j: int| 0 <= j < i && (#[trigger] ws[j]).src == w.src && ws[j].dst == w.dst {
        Some(CircuitError::DuplicateWire { src: w.src, dst: w.dst })
    } else {
        None
    }
}

/// Whether `p` is the target of one of the input components.
pub open spec fn is_input_target(ins: Seq<InputView>, p: Pos) -> bool {
    exists|k: int| 0 <= k < ins.len() && input_target(#[trigger] ins[k]) == p
}

/// The error of the `i`-th input component, if any.
pub open spec fn input_error(ws: Seq<Wire>, ins: Seq<InputView>, i: int) -> Option<CircuitError> {
    let t = input_target(ins[i]);
    if has_incoming(ws, t) {
        Some(CircuitError::InputTargetHasIncomingWires(t))
    } else if is_input_target(ins.subrange(0, i), t) {
        Some(CircuitError::DuplicateInputTarget(t))
    } else if !input_ok(ins[i]) {
        Some(CircuitError::EmptyGeneratorPattern(t))
    } else {
        None
    }
}

/// Whether `p` is the target of one of the output components.
pub open spec fn is_output_target(outs: Seq<OutputView>, p: Pos) -> bool {
    exists|k: int| 0 <= k < outs.len() && output_target(#[trigger] outs[k]) == p
}

/// The error of the `i`-th output component, if any.
pub open spec fn output_error(outs: Seq<OutputView>, i: int) -> Option<CircuitError> {
    let t = output_target(outs[i]);
    if is_output_target(outs.subrange(0, i), t) {
        Some(CircuitError::DuplicateOutputTarget(t))
    } else if !output_ok(outs[i]) {
        Some(CircuitError::EmptyTesterPattern(t))
    } else {
        None
    }
}

/// The wire checks, by wire index.
pub open spec fn wire_checks(cells: Seq<Pos>, ws: Seq<Wire>) -> spec_fn(int) -> Option<CircuitError> {
    |i: int| wire_error(cells, ws, i)
}

/// The input component checks, by input index.
pub open spec fn input_checks(ws: Seq<Wire>, ins: Seq<InputView>) -> spec_fn(int) -> Option<
    CircuitError,
> {
    |i: int| input_error(ws, ins, i)
}

/// The output component checks, by output index.
pub open spec fn output_checks(outs: Seq<OutputView>) -> spec_fn(int) -> Option<CircuitError> {
    |i: int| output_error(outs, i)
}

/// The first error of a circuit made of these cells, wires and components:
/// the wires are checked first, then the inputs, then the outputs, each in order.
pub open spec fn components_error(
    cells: Seq<Pos>,
    ws: Seq<Wire>,
    ins: Seq<InputView>,
    outs: Seq<OutputView>,
) -> Option<CircuitError> {
    match first_some(ws.len(), wire_checks(cells, ws)) {
        Some(e) => Some(e),
        None => match first_some(ins.len(), input_checks(ws, ins)) {
            Some(e) => Some(e),
            None => first_some(outs.len(), output_checks(outs)),
        },
    }
}

/// The cells of a circuit built from `cells` and these components: the given
/// cells and the targets of the components.
pub open spec fn component_cells(
    cells: Seq<Pos>,
    ins: Seq<InputView>,
    outs: Seq<OutputView>,
) -> Set<Pos> {
    cells.to_set().union(Set::new(|p: Pos| is_input_target(ins, p))).union(
        Set::new(|p: Pos| is_output_target(outs, p)),
    )
}

/// Whether the ports lie in one column (same `x`) at consecutive `y`, in order.
pub open spec fn port_column_ok(ports: Seq<Pos>) -> bool {
    forall|i: int|
        0 <= i < ports.len() ==> (#[trigger] ports[i]).x == ports[0].x && ports[i].y == ports[0].y
            + i
}

/// Checks each position of `s` against `pred`, by index.
pub open spec fn pos_checks(s: Seq<Pos>, pred: spec_fn(Pos) -> bool) -> spec_fn(int) -> Option<Pos> {
    |k: int|
        if pred(s[k]) {
            Some(s[k])
        } else {
            None
        }
}

/// The first position of `s` for which `pred` holds.
pub open spec fn first_pos(s: Seq<Pos>, pred: spec_fn(Pos) -> bool) -> Option<Pos> {
    first_some(s.len(), pos_checks(s, pred))
}

/// Whether some wire ends at the position.
pub open spec fn incoming_pred(ws: Seq<Wire>) -> spec_fn(Pos) -> bool {
    |p: Pos| has_incoming(ws, p)
}

/// Whether the position is an input target.
pub open spec fn input_target_pred(ins: Seq<InputView>) -> spec_fn(Pos) -> bool {
    |p: Pos| is_input_target(ins, p)
}

/// Whether `p` is an output of one of the first `n` modules.
pub open spec fn is_module_output(mods: Seq<ModuleView>, n: int, p: Pos) -> bool {
    exists|j: int| 0 <= j < n && (#[trigger] mods[j]).output.contains(p)
}

/// Whether `p` is an input of one of the first `n` modules.
pub open spec fn is_module_input(mods: Seq<ModuleView>, n: int, p: Pos) -> bool {
    exists|j: int| 0 <= j < n && (#[trigger] mods[j]).input.contains(p)
}

/// The `k`-th output of the `mi`-th module, if an earlier module or an earlier
/// output of the same module already uses its cell.
pub open spec fn duplicate_output_checks(mods: Seq<ModuleView>, mi: int) -> spec_fn(int) -> Option<
    Pos,
> {
    |k: int|
        if is_module_output(mods, mi, mods[mi].output[k]) || mods[mi].output.subrange(
            0,
            k,
        ).contains(mods[mi].output[k]) {
            Some(mods[mi].output[k])
        } else {
            None
        }
}

/// The error of the `mi`-th module, if any: ports that are not a column, an
/// output column not right of the input column, an output cell that has
/// incoming wires or is an input target, or an output cell used twice.
pub open spec fn module_error(
    ws: Seq<Wire>,
    ins: Seq<InputView>,
    mods: Seq<ModuleView>,
    mi: int,
) -> Option<CircuitError> {
    let m = mods[mi];
    if !port_column_ok(m.input) || !port_column_ok(m.output) {
        Some(CircuitError::InvalidPortColumn)
    } else if m.input.len() > 0 && m.output.len() > 0 && m.output[0].x <= m.input[0].x {
        Some(CircuitError::ModuleOutputBeforeInput)
    } else {
        match first_pos(m.output, incoming_pred(ws)) {
            Some(p) => Some(CircuitError::ModuleOutputHasIncomingWires(p)),
            None => match first_pos(m.output, input_target_pred(ins)) {
                Some(p) => Some(CircuitError::ModuleOutputHasIncomingWires(p)),
                None => match first_some(m.output.len(), duplicate_output_checks(mods, mi)) {
                    Some(p) => Some(CircuitError::DuplicateModuleOutput(p)),
                    None => None,
                },
            },
        }
    }
}

/// The module checks, by module index.
pub open spec fn module_checks(
    ws: Seq<Wire>,
    ins: Seq<InputView>,
    mods: Seq<ModuleView>,
) -> spec_fn(int) -> Option<CircuitError> {
    |mi: int| module_error(ws, ins, mods, mi)
}

/// The first error among the modules, checked in order.
pub open spec fn modules_error(
    ws: Seq<Wire>,
    ins: Seq<InputView>,
    mods: Seq<ModuleView>,
) -> Option<CircuitError> {
    first_some(mods.len(), module_checks(ws, ins, mods))
}

/// The cells that the modules add: all their input and output cells.
pub open spec fn module_cells(mods: Seq<ModuleView>) -> Set<Pos> {
    Set::new(
        |p: Pos| is_module_output(mods, mods.len() as int, p) || is_module_input(mods, mods.len() as int, p),
    )
}

/// What `Circuit::with_modules` gives for these parts: the first error of
/// the components, else the first error of the modules, else a circuit made of
/// exactly these parts, whose cells are the given cells, the component targets
/// and the module ports.
pub open spec fn built_with_modules(
    cells: Seq<Pos>,
    wires: Seq<Wire>,
    inputs: Seq<Input>,
    outputs: Seq<Output>,
    modules: Seq<ResolvedModule>,
    r: Result<Circuit, CircuitError>,
) -> bool {
    let ins = input_views(inputs);
    let outs = output_views(outputs);
    let mods = module_views(modules);
    match r {
        Ok(c) => {
            &&& components_error(cells, wires, ins, outs) is None
            &&& modules_error(wires, ins, mods) is None
            &&& c@.cells.to_set() == component_cells(cells, ins, outs).union(module_cells(mods))
            &&& c@.wires == wires
            &&& c@.inputs == ins
            &&& c@.outputs == outs
            &&& c.spec_modules() == modules
        },
        Err(e) => match components_error(cells, wires, ins, outs) {
            Some(e2) => e == e2,
            None => modules_error(wires, ins, mods) == Some(e),
        },
    }
}

/// The structural facts every circuit satisfies.
pub open spec fn circuit_wf(c: CircuitView) -> bool {
    &&& sorted_strict(c.cells)
    &&& forall|j: int|
        0 <= j < c.wires.len() ==> c.cells.contains((#[trigger] c.wires[j]).src) && c.cells.contains(
            c.wires[j].dst,
        ) && c.wires[j].src != c.wires[j].dst
    &&& forall|k: int|
        0 <= k < c.inputs.len() ==> c.cells.contains(input_target(#[trigger] c.inputs[k]))
            && input_ok(c.inputs[k]) && !has_incoming(c.wires, input_target(c.inputs[k]))
    &&& forall|k: int, l: int|
        0 <= k < l < c.inputs.len() ==> input_target(#[trigger] c.inputs[k]) != input_target(
            #[trigger] c.inputs[l],
        )
    &&& forall|k: int|
        0 <= k < c.outputs.len() ==> c.cells.contains(output_target(#[trigger] c.outputs[k]))
            && output_ok(c.outputs[k])
    &&& forall|k: int, l: int|
        0 <= k < l < c.outputs.len() ==> output_target(#[trigger] c.outputs[k]) != output_target(
            #[trigger] c.outputs[l],
        )
}

/// The views of a sequence of input components.
pub open spec fn input_views(s: Seq<Input>) -> Seq<InputView> {
    s.map_values(|i: Input| i@)
}

/// The views of a sequence of output components.
pub open spec fn output_views(s: Seq<Output>) -> Seq<OutputView> {
    s.map_values(|o: Output| o@)
}

/// The views of a sequence of modules.
pub open spec fn module_views(s: Seq<ResolvedModule>) -> Seq<ModuleView> {
    s.map_values(|m: ResolvedModule| m@)
}

/// The structure of a circuit: cells, wires, input/output components and
/// modules. Immutable once built; every cell starts at `false`.
#[derive(Debug)]
pub struct Circuit {
    cells: PosSet,
    wires: Vec<Wire>,
    inputs: Vec<Input>,
    outputs: Vec<Output>,
    modules: Vec<ResolvedModule>,
    /// For each cell (in the order of `cells`), the wires that end there.
    incoming: Vec<Vec<usize>>,
}

impl View for Circuit {
    type V = CircuitView;

    closed spec fn view(&self) -> CircuitView {
        CircuitView {
            cells: self.cells@,
            wires: self.wires@,
            inputs: input_views(self.inputs@),
            outputs: output_views(self.outputs@),
        }
    }
}

/// A circuit is built around its module instances, which are therefore
/// smaller than the circuit.
pub proof fn lemma_module_smaller(c: Circuit, i: int)
    requires
        0 <= i < c.spec_modules().len(),
    ensures
        decreases_to!(c => c.spec_modules()[i]),
{
}

/// When no check among the first `n` fails, none of them fails.
pub proof fn lemma_first_some_none<A>(check: spec_fn(int) -> Option<A>, n: nat)
    requires
        first_some(n, check) is None,
    ensures
        forall|i: int| 0 <= i < n ==> (#[trigger] check(i)) is None,
    decreases n,
{
    if n > 0 {
        lemma_first_some_none(check, (n - 1) as nat);
    }
}

/// In a circuit whose modules pass their checks, each module's input and
/// output ports lie in one column each, at consecutive rows, and the output
/// column is right of the input column; no output port has an incoming wire
/// or is an input target, and no output port is used twice.
pub proof fn lemma_module_ports(ws: Seq<Wire>, ins: Seq<InputView>, mods: Seq<ModuleView>)
    requires
        modules_error(ws, ins, mods) is None,
    ensures
        forall|mi: int|
            0 <= mi < mods.len() ==> {
                &&& port_column_ok((#[trigger] mods[mi]).input)
                &&& port_column_ok(mods[mi].output)
                &&& (mods[mi].input.len() > 0 && mods[mi].output.len() > 0 ==> mods[mi].output[0].x
                    > mods[mi].input[0].x)
                &&& first_pos(mods[mi].output, incoming_pred(ws)) is None
                &&& first_pos(mods[mi].output, input_target_pred(ins)) is None
                &&& first_some(mods[mi].output.len(), duplicate_output_checks(mods, mi)) is None
            },
{
    lemma_first_some_none(module_checks(ws, ins, mods), mods.len());
    assert forall|mi: int| 0 <= mi < mods.len() implies {
        &&& port_column_ok((#[trigger] mods[mi]).input)
        &&& port_column_ok(mods[mi].output)
        &&& (mods[mi].input.len() > 0 && mods[mi].output.len() > 0 ==> mods[mi].output[0].x
            > mods[mi].input[0].x)
        &&& first_pos(mods[mi].output, incoming_pred(ws)) is None
        &&& first_pos(mods[mi].output, input_target_pred(ins)) is None
        &&& first_some(mods[mi].output.len(), duplicate_output_checks(mods, mi)) is None
    } by {
        assert(module_checks(ws, ins, mods)(mi) is None);
    }
}

/// Once a check has failed, it stays the first failure of every longer run.
pub proof fn lemma_first_some_stable<A>(check: spec_fn(int) -> Option<A>, m: nat, n: nat)
    requires
        m <= n,
        first_some(m, check) is Some,
    ensures
        first_some(n, check) == first_some(m, check),
    decreases n,
{
    if n > m {
        lemma_first_some_stable(check, m, (n - 1) as nat);
    }
}

/// When no check failed before `i` and the `i`-th fails, it is the first failure.
pub proof fn lemma_first_some_at<A>(check: spec_fn(int) -> Option<A>, i: nat, n: nat)
    requires
        i < n,
        first_some(i, check) is None,
        check(i as int) is Some,
    ensures
        first_some(n, check) == check(i as int),
{
    lemma_first_some_stable(check, i + 1, n);
}

/// No wire ending at `p` means no incoming index for `p`.
pub proof fn lemma_incoming_empty(ws: Seq<Wire>, p: Pos, n: nat)
    requires
        n <= ws.len(),
        forall|j: int| 0 <= j < n ==> (#[trigger] ws[j]).dst != p,
    ensures
        incoming_upto(ws, p, n) == Seq::<usize>::empty(),
    decreases n,
{
    if n > 0 {
        lemma_incoming_empty(ws, p, (n - 1) as nat);
    }
}

/// The incoming indices of `p` name exactly the wires that end at `p`, in
/// increasing order.
pub proof fn lemma_incoming_members(ws: Seq<Wire>, p: Pos, n: nat)
    requires
        n <= ws.len(),
        ws.len() <= usize::MAX,
    ensures
        forall|k: int|
            0 <= k < incoming_upto(ws, p, n).len() ==> (#[trigger] incoming_upto(ws, p, n)[k]) < n
                && ws[incoming_upto(ws, p, n)[k] as int].dst == p,
        forall|k: int, l: int|
            0 <= k < l < incoming_upto(ws, p, n).len() ==> (#[trigger] incoming_upto(ws, p, n)[k])
                < (#[trigger] incoming_upto(ws, p, n)[l]),
        forall|j: int|
            0 <= j < n && (#[trigger] ws[j]).dst == p ==> incoming_upto(ws, p, n).contains(
                j as usize,
            ),
    decreases n,
{
    if n > 0 {
        lemma_incoming_members(ws, p, (n - 1) as nat);
        let r = incoming_upto(ws, p, (n - 1) as nat);
        let t = incoming_upto(ws, p, n);
        if ws[n - 1].dst == p {
            assert(t == r.push((n - 1) as usize));
            assert forall|k: int| 0 <= k < t.len() implies (#[trigger] t[k]) < n && ws[t[k] as int].dst
                == p by {
                if k < r.len() {
                    assert(t[k] == r[k]);
                }
            }
            assert forall|k: int, l: int| 0 <= k < l < t.len() implies (#[trigger] t[k]) < (
            #[trigger] t[l]) by {
                if l < r.len() {
                    assert(t[k] == r[k] && t[l] == r[l]);
                } else {
                    assert(t[k] == r[k]);
                    assert(r[k] < n - 1);
                }
            }
            assert forall|j: int| 0 <= j < n && (#[trigger] ws[j]).dst == p implies t.contains(
                j as usize,
            ) by {
                if j < n - 1 {
                    assert(r.contains(j as usize));
                    let k = choose|k: int| 0 <= k < r.len() && r[k] == j as usize;
                    assert(t[k] == j as usize);
                } else {
                    assert(t[r.len() as int] == j as usize);
                }
            }
        } else {
            assert(t == r);
            assert forall|j: int| 0 <= j < n && (#[trigger] ws[j]).dst == p implies t.contains(
                j as usize,
            ) by {
                if j < n - 1 {
                    assert(r.contains(j as usize));
                }
            }
        }
    }
}

/// Whether some wire of `wires` ends at `p`.
fn wires_into(wires: &[Wire], p: Pos) -> (b: bool)
    ensures
        b == has_incoming(wires@, p),
{
    let mut j: usize = 0;
    while j < wires.len()
        invariant
            j <= wires@.len(),
            forall|k: int| 0 <= k < j ==> (#[trigger] wires@[k]).dst != p,
        decreases wires@.len() - j,
    {
        if wires[j].dst == p {
            return true;
        }
        j = j + 1;
    }
    false
}

/// Whether a wire before the `i`-th has the same source and destination.
fn has_earlier_pair(wires: &Vec<Wire>, i: usize) -> (b: bool)
    requires
        i < wires@.len(),
    ensures
        b == exists|j: int|
            0 <= j < i && (#[trigger] wires@[j]).src == wires@[i as int].src && wires@[j].dst
                == wires@[i as int].dst,
{
    let w = wires[i];
    let mut j: usize = 0;
    while j < i
        invariant
            i < wires@.len(),
            w == wires@[i as int],
            j <= i,
            forall|k: int| 0 <= k < j ==> !((#[trigger] wires@[k]).src == w.src && wires@[k].dst == w.dst),
        decreases i - j,
    {
        if wires[j].src == w.src && wires[j].dst == w.dst {
            return true;
        }
        j = j + 1;
    }
    false
}

/// Whether an input component before the `i`-th targets `target`.
fn earlier_input_target(inputs: &Vec<Input>, i: usize, target: Pos) -> (b: bool)
    requires
        i <= inputs@.len(),
    ensures
        b == is_input_target(input_views(inputs@).subrange(0, i as int), target),
{
    let ghost ins = input_views(inputs@);
    let mut j: usize = 0;
    while j < i
        invariant
            i <= inputs@.len(),
            ins == input_views(inputs@),
            j <= i,
            forall|k: int| 0 <= k < j ==> input_target(#[trigger] ins[k]) != target,
        decreases i - j,
    {
        assert(ins[j as int] == inputs@[j as int]@);
        if inputs[j].target() == target {
            assert(ins.subrange(0, i as int)[j as int] == ins[j as int]);
            return true;
        }
        j = j + 1;
    }
    assert(!is_input_target(ins.subrange(0, i as int), target)) by {
        if is_input_target(ins.subrange(0, i as int), target) {
            let k = choose|k: int|
                0 <= k < i && input_target(#[trigger] ins.subrange(0, i as int)[k]) == target;
            assert(ins.subrange(0, i as int)[k] == ins[k]);
        }
    }
    false
}

/// Whether an output component before the `i`-th targets `target`.
fn earlier_output_target(outputs: &Vec<Output>, i: usize, target: Pos) -> (b: bool)
    requires
        i <= outputs@.len(),
    ensures
        b == is_output_target(output_views(outputs@).subrange(0, i as int), target),
{
    let ghost outs = output_views(outputs@);
    let mut j: usize = 0;
    while j < i
        invariant
            i <= outputs@.len(),
            outs == output_views(outputs@),
            j <= i,
            forall|k: int| 0 <= k < j ==> output_target(#[trigger] outs[k]) != target,
        decreases i - j,
    {
        assert(outs[j as int] == outputs@[j as int]@);
        if outputs[j].target() == target {
            assert(outs.subrange(0, i as int)[j as int] == outs[j as int]);
            return true;
        }
        j = j + 1;
    }
    assert(!is_output_target(outs.subrange(0, i as int), target)) by {
        if is_output_target(outs.subrange(0, i as int), target) {
            let k = choose|k: int|
                0 <= k < i && output_target(#[trigger] outs.subrange(0, i as int)[k]) == target;
            assert(outs.subrange(0, i as int)[k] == outs[k]);
        }
    }
    false
}

/// The first of `ports` that some wire of `wires` ends at.
pub(crate) fn first_with_incoming(ports: &[Pos], wires: &[Wire]) -> (r: Option<Pos>)
    ensures
        r == first_pos(ports@, incoming_pred(wires@)),
{
    let mut k: usize = 0;
    while k < ports.len()
        invariant
            k <= ports@.len(),
            first_some(k as nat, pos_checks(ports@, incoming_pred(wires@))) is None,
        decreases ports@.len() - k,
    {
        let p = ports[k];
        if wires_into(wires, p) {
            proof {
                lemma_first_some_at(pos_checks(ports@, incoming_pred(wires@)), k as nat, ports@.len());
            }
            return Some(p);
        }
        assert(pos_checks(ports@, incoming_pred(wires@))(k as int) is None);
        k = k + 1;
    }
    None
}

/// Whether `p` is the target of one of `inputs`.
fn targets_input(inputs: &[Input], p: Pos) -> (b: bool)
    ensures
        b == is_input_target(input_views(inputs@), p),
{
    let ghost ins = input_views(inputs@);
    let mut j: usize = 0;
    while j < inputs.len()
        invariant
            ins == input_views(inputs@),
            j <= inputs@.len(),
            forall|l: int| 0 <= l < j ==> input_target(#[trigger] ins[l]) != p,
        decreases inputs@.len() - j,
    {
        assert(ins[j as int] == inputs@[j as int]@);
        if inputs[j].target() == p {
            return true;
        }
        j = j + 1;
    }
    false
}

/// The first of `ports` that is the target of one of `inputs`.
fn first_input_target(ports: &[Pos], inputs: &[Input]) -> (r: Option<Pos>)
    ensures
        r == first_pos(ports@, input_target_pred(input_views(inputs@))),
{
    let ghost ins = input_views(inputs@);
    let mut k: usize = 0;
    while k < ports.len()
        invariant
            ins == input_views(inputs@),
            k <= ports@.len(),
            first_some(k as nat, pos_checks(ports@, input_target_pred(ins))) is None,
        decreases ports@.len() - k,
    {
        let p = ports[k];
        if targets_input(inputs, p) {
            proof {
                lemma_first_some_at(pos_checks(ports@, input_target_pred(ins)), k as nat, ports@.len());
            }
            return Some(p);
        }
        assert(pos_checks(ports@, input_target_pred(ins))(k as int) is None);
        k = k + 1;
    }
    None
}

/// Adds all of `ports` to `cells`.
pub(crate) fn add_ports(cells: &mut PosSet, ports: &[Pos])
    requires
        sorted_strict(old(cells)@),
    ensures
        sorted_strict(final(cells)@),
        final(cells)@.to_set() == old(cells)@.to_set().union(ports@.to_set()),
{
    let ghost c0 = cells@;
    let mut k: usize = 0;
    while k < ports.len()
        invariant
            k <= ports@.len(),
            sorted_strict(cells@),
            cells@.to_set() == c0.to_set().union(ports@.subrange(0, k as int).to_set()),
        decreases ports@.len() - k,
    {
        cells.insert(ports[k]);
        proof {
            assert(ports@.subrange(0, k + 1) =~= ports@.subrange(0, k as int).push(ports@[k as int]));
            lemma_push_to_set(ports@.subrange(0, k as int), ports@[k as int]);
            assert(cells@.to_set() =~= c0.to_set().union(ports@.subrange(0, k + 1).to_set()));
        }
        k = k + 1;
    }
    assert(ports@.subrange(0, ports@.len() as int) =~= ports@);
}

/// For each cell of `cells`, the indices of the wires that end there.
fn build_incoming(cells: &PosSet, wires: &Vec<Wire>) -> (r: Vec<Vec<usize>>)
    requires
        sorted_strict(cells@),
        forall|j: int| 0 <= j < wires@.len() ==> cells@.contains((#[trigger] wires@[j]).dst),
    ensures
        r@.len() == cells@.len(),
        forall|k: int| 0 <= k < cells@.len() ==> (#[trigger] r@[k])@ == incoming_of(wires@, cells@[k]),
{
    let mut r: Vec<Vec<usize>> = Vec::new();
    let n = cells.len();
    let mut k: usize = 0;
    while k < n
        invariant
            n == cells@.len(),
            k <= n,
            r@.len() == k,
            forall|i: int| 0 <= i < k ==> (#[trigger] r@[i])@ == Seq::<usize>::empty(),
        decreases n - k,
    {
        r.push(Vec::new());
        k = k + 1;
    }
    let mut j: usize = 0;
    while j < wires.len()
        invariant
            n == cells@.len(),
            sorted_strict(cells@),
            forall|i: int| 0 <= i < wires@.len() ==> cells@.contains((#[trigger] wires@[i]).dst),
            j <= wires@.len(),
            r@.len() == n,
            forall|i: int|
                0 <= i < n ==> (#[trigger] r@[i])@ == incoming_upto(wires@, cells@[i], j as nat),
        decreases wires@.len() - j,
    {
        let d = wires[j].dst;
        let ghost rr = r@;
        match cells.index_of(&d) {
            Some(ki) => {
                let mut inner = r[ki].clone();
                assert(inner@ =~= r@[ki as int]@);
                inner.push(j);
                r.set(ki, inner);
                assert forall|i: int| 0 <= i < n implies (#[trigger] r@[i])@ == incoming_upto(
                    wires@,
                    cells@[i],
                    (j + 1) as nat,
                ) by {
                    if i != ki {
                        assert(cells@[i] != cells@[ki as int]) by {
                            if i < ki {
                                assert(crate::base::pos::pos_lt(cells@[i], cells@[ki as int]));
                            } else {
                                assert(crate::base::pos::pos_lt(cells@[ki as int], cells@[i]));
                            }
                        }
                        assert(r@[i] == rr[i]);
                    }
                }
            },
            None => {
                assert(cells@.contains(wires@[j as int].dst));
            },
        }
        j = j + 1;
    }
    r
}

impl Clone for Circuit {
    fn clone(&self) -> (r: Self)
        ensures
            r@ == self@,
            r.spec_modules().len() == self.spec_modules().len(),
            forall|i: int|
                0 <= i < self.spec_modules().len() ==> (#[trigger] r.spec_modules()[i])@
                    == self.spec_modules()[i]@ && r.spec_modules()[i].spec_circuit()
                    == self.spec_modules()[i].spec_circuit(),
    {
        proof {
            use_type_invariant(self);
        }
        let cells = self.cells.clone();
        let wires = self.wires.clone();
        assert(wires@ =~= self.wires@);
        let inputs = self.inputs.clone();
        assert(input_views(inputs@) =~= input_views(self.inputs@));
        let outputs = self.outputs.clone();
        assert(output_views(outputs@) =~= output_views(self.outputs@));
        let modules = self.modules.clone();
        let incoming = self.incoming.clone();
        assert forall|k: int| 0 <= k < incoming@.len() implies (#[trigger] incoming@[k])@
            == self.incoming@[k]@ by {
            assert(cloned::<Vec<usize>>(self.incoming@[k], incoming@[k]));
        }
        Circuit { cells, wires, inputs, outputs, modules, incoming }
    }
}

impl Circuit {
    /// The structural facts of the circuit; `incoming` lists, for each cell, the
    /// wires that end there.
    #[verifier::type_invariant]
    closed spec fn well_formed(self) -> bool {
        &&& circuit_wf(self@)
        &&& self.incoming@.len() == self.cells@.len()
        &&& forall|k: int|
            0 <= k < self.cells@.len() ==> (#[trigger] self.incoming@[k])@ == incoming_of(
                self.wires@,
                self.cells@[k],
            )
    }

    /// The module instances.
    pub closed spec fn spec_modules(&self) -> Seq<ResolvedModule> {
        self.modules@
    }

    /// The structural facts hold of this circuit.
    pub fn wf(&self)
        ensures
            circuit_wf(self@),
    {
        proof {
            use_type_invariant(self);
        }
    }

    /// Builds a circuit without components or modules.
    pub fn new(cells: PosSet, wires: Vec<Wire>) -> (r: Result<Circuit, CircuitError>)
        ensures
            match r {
                Ok(c) => {
                    &&& components_error(cells@, wires@, Seq::empty(), Seq::empty()) is None
                    &&& c@.cells == cells@
                    &&& c@.wires == wires@
                    &&& c@.inputs.len() == 0
                    &&& c@.outputs.len() == 0
                    &&& c.spec_modules().len() == 0
                },
                Err(e) => components_error(cells@, wires@, Seq::empty(), Seq::empty()) == Some(e),
            },
    {
        cells.sorted();
        let ghost cells0 = cells@;
        let r = Self::with_components(cells, wires, Vec::new(), Vec::new());
        assert(input_views(Seq::<Input>::empty()) =~= Seq::<InputView>::empty());
        assert(output_views(Seq::<Output>::empty()) =~= Seq::<OutputView>::empty());
        match r {
            Ok(c) => {
                proof {
                    use_type_invariant(&c);
                    assert(c@.cells.to_set() =~= cells0.to_set());
                    lemma_sorted_same_set(c@.cells, cells0);
                }
                Ok(c)
            },
            Err(e) => Err(e),
        }
    }

    /// Builds a circuit from cells, wires and input/output components.
    ///
    /// The wires are checked first, in order, then the inputs, then the
    /// outputs; the first failed check is the error. The targets of the
    /// components become cells.
    #[verifier::loop_isolation(false)]
    pub fn with_components(
        cells: PosSet,
        wires: Vec<Wire>,
        inputs: Vec<Input>,
        outputs: Vec<Output>,
    ) -> (r: Result<Circuit, CircuitError>)
        ensures
            match r {
                Ok(c) => {
                    &&& components_error(
                        cells@,
                        wires@,
                        input_views(inputs@),
                        output_views(outputs@),
                    ) is None
                    &&& c@.cells.to_set() == component_cells(
                        cells@,
                        input_views(inputs@),
                        output_views(outputs@),
                    )
                    &&& c@.wires == wires@
                    &&& c@.inputs == input_views(inputs@)
                    &&& c@.outputs == output_views(outputs@)
                    &&& c.spec_modules().len() == 0
                },
                Err(e) => components_error(
                    cells@,
                    wires@,
                    input_views(inputs@),
                    output_views(outputs@),
                ) == Some(e),
            },
    {
        cells.sorted();
        let mut all = cells;
        let ghost cells0 = all@;
        let ghost ws = wires@;
        let ghost ins = input_views(inputs@);
        let ghost outs = output_views(outputs@);
        let ghost wcheck = wire_checks(cells0, ws);
        let ghost icheck = input_checks(ws, ins);
        let ghost ocheck = output_checks(outs);

        let mut i: usize = 0;
        while i < wires.len()
            invariant
                all@ == cells0,
                sorted_strict(cells0),
                wires@ == ws,
                wcheck == wire_checks(cells0, ws),
                i <= ws.len(),
                first_some(i as nat, wcheck) is None,
                forall|k: int|
                    0 <= k < i ==> cells0.contains((#[trigger] ws[k]).src) && cells0.contains(
                        ws[k].dst,
                    ) && ws[k].src != ws[k].dst,
            decreases ws.len() - i,
        {
            let w = wires[i];
            let mut err: Option<CircuitError> = None;
            if w.src == w.dst {
                err = Some(CircuitError::SelfLoop { src: w.src, dst: w.dst });
            } else if !all.contains(&w.src) {
                err = Some(CircuitError::WireSrcNotFound(w.src));
            } else if !all.contains(&w.dst) {
                err = Some(CircuitError::WireDstNotFound(w.dst));
            } else if has_earlier_pair(&wires, i) {
                err = Some(CircuitError::DuplicateWire { src: w.src, dst: w.dst });
            }
            assert(err == wcheck(i as int));
            if let Some(e) = err {
                proof {
                    lemma_first_some_at(wcheck, i as nat, ws.len());
                    assert(first_some(ws.len(), wcheck) == Some(e));
                    assert(components_error(cells0, ws, ins, outs) == Some(e));
                    assert(cells0 == all@);
                    assert(components_error(all@, wires@, input_views(inputs@), output_views(outputs@)) == Some(e));
                }
                return Err(e);
            }
            i = i + 1;
        }

        let mut i: usize = 0;
        while i < inputs.len()
            invariant
                wires@ == ws,
                input_views(inputs@) == ins,
                outs == output_views(outputs@),
                wcheck == wire_checks(cells0, ws),
                icheck == input_checks(ws, ins),
                first_some(ws.len(), wcheck) is None,
                forall|k: int|
                    0 <= k < ws.len() ==> cells0.contains((#[trigger] ws[k]).src) && cells0.contains(
                        ws[k].dst,
                    ) && ws[k].src != ws[k].dst,
                i <= ins.len(),
                first_some(i as nat, icheck) is None,
                sorted_strict(all@),
                all@.to_set() == cells0.to_set().union(
                    Set::new(|p: Pos| is_input_target(ins.subrange(0, i as int), p)),
                ),
                forall|k: int|
                    0 <= k < i ==> input_ok(#[trigger] ins[k]) && !has_incoming(
                        ws,
                        input_target(ins[k]),
                    ),
                forall|k: int, l: int|
                    0 <= k < l < i ==> input_target(#[trigger] ins[k]) != input_target(
                        #[trigger] ins[l],
                    ),
            decreases ins.len() - i,
        {
            let input = &inputs[i];
            let target = input.target();
            assert(ins[i as int] == inputs@[i as int]@);
            let mut err: Option<CircuitError> = None;
            if wires_into(wires.as_slice(), target) {
                err = Some(CircuitError::InputTargetHasIncomingWires(target));
            } else if earlier_input_target(&inputs, i, target) {
                err = Some(CircuitError::DuplicateInputTarget(target));
            } else {
                match input {
                    Input::Generator(generator) => {
                        if generator.pattern().len() == 0 {
                            err = Some(CircuitError::EmptyGeneratorPattern(target));
                        }
                    },
                }
            }
            assert(err == icheck(i as int));
            if let Some(e) = err {
                proof {
                    lemma_first_some_at(icheck, i as nat, ins.len());
                    assert(components_error(cells0, ws, ins, outs) == Some(e));
                }
                return Err(e);
            }
            assert forall|k: int| 0 <= k < i implies input_target(#[trigger] ins[k]) != target by {
                assert(ins.subrange(0, i as int)[k] == ins[k]);
            }
            all.insert(target);
            proof {
                assert(Set::new(|p: Pos| is_input_target(ins.subrange(0, i + 1), p)) =~= Set::new(
                    |p: Pos| is_input_target(ins.subrange(0, i as int), p),
                ).insert(target)) by {
                    assert forall|p: Pos|
                        is_input_target(ins.subrange(0, i + 1), p) <==> is_input_target(
                            ins.subrange(0, i as int),
                            p,
                        ) || p == target by {
                        if is_input_target(ins.subrange(0, i + 1), p) {
                            let k = choose|k: int|
                                0 <= k < i + 1 && input_target(
                                    #[trigger] ins.subrange(0, i + 1)[k],
                                ) == p;
                            if k < i {
                                assert(ins.subrange(0, i as int)[k] == ins[k]);
                            }
                        }
                        if is_input_target(ins.subrange(0, i as int), p) {
                            let k = choose|k: int|
                                0 <= k < i && input_target(#[trigger] ins.subrange(0, i as int)[k])
                                    == p;
                            assert(ins.subrange(0, i + 1)[k] == ins[k]);
                        }
                        if p == target {
                            assert(ins.subrange(0, i + 1)[i as int] == ins[i as int]);
                        }
                    }
                }
                assert(all@.to_set() =~= cells0.to_set().union(
                    Set::new(|p: Pos| is_input_target(ins.subrange(0, i + 1), p)),
                ));
            }
            i = i + 1;
        }
        assert(ins.subrange(0, ins.len() as int) =~= ins);

        let mut i: usize = 0;
        while i < outputs.len()
            invariant
                wires@ == ws,
                input_views(inputs@) == ins,
                output_views(outputs@) == outs,
                wcheck == wire_checks(cells0, ws),
                icheck == input_checks(ws, ins),
                ocheck == output_checks(outs),
                first_some(ws.len(), wcheck) is None,
                first_some(ins.len(), icheck) is None,
                forall|k: int|
                    0 <= k < ws.len() ==> cells0.contains((#[trigger] ws[k]).src) && cells0.contains(
                        ws[k].dst,
                    ) && ws[k].src != ws[k].dst,
                forall|k: int|
                    0 <= k < ins.len() ==> input_ok(#[trigger] ins[k]) && !has_incoming(
                        ws,
                        input_target(ins[k]),
                    ),
                forall|k: int, l: int|
                    0 <= k < l < ins.len() ==> input_target(#[trigger] ins[k]) != input_target(
                        #[trigger] ins[l],
                    ),
                i <= outs.len(),
                first_some(i as nat, ocheck) is None,
                sorted_strict(all@),
                all@.to_set() == cells0.to_set().union(
                    Set::new(|p: Pos| is_input_target(ins, p)),
                ).union(Set::new(|p: Pos| is_output_target(outs.subrange(0, i as int), p))),
                forall|k: int| 0 <= k < i ==> output_ok(#[trigger] outs[k]),
                forall|k: int, l: int|
                    0 <= k < l < i ==> output_target(#[trigger] outs[k]) != output_target(
                        #[trigger] outs[l],
                    ),
            decreases outs.len() - i,
        {
            let output = &outputs[i];
            let target = output.target();
            assert(outs[i as int] == outputs@[i as int]@);
            let mut err: Option<CircuitError> = None;
            if earlier_output_target(&outputs, i, target) {
                err = Some(CircuitError::DuplicateOutputTarget(target));
            } else {
                match output {
                    Output::Tester(tester) => {
                        if tester.expected().len() == 0 {
                            err = Some(CircuitError::EmptyTesterPattern(target));
                        }
                    },
                }
            }
            assert(err == ocheck(i as int));
            if let Some(e) = err {
                proof {
                    lemma_first_some_at(ocheck, i as nat, outs.len());
                    assert(components_error(cells0, ws, ins, outs) == Some(e));
                }
                return Err(e);
            }
            assert forall|k: int| 0 <= k < i implies output_target(#[trigger] outs[k]) != target by {
                assert(outs.subrange(0, i as int)[k] == outs[k]);
            }
            all.insert(target);
            proof {
                assert(Set::new(|p: Pos| is_output_target(outs.subrange(0, i + 1), p)) =~= Set::new(
                    |p: Pos| is_output_target(outs.subrange(0, i as int), p),
                ).insert(target)) by {
                    assert forall|p: Pos|
                        is_output_target(outs.subrange(0, i + 1), p) <==> is_output_target(
                            outs.subrange(0, i as int),
                            p,
                        ) || p == target by {
                        if is_output_target(outs.subrange(0, i + 1), p) {
                            let k = choose|k: int|
                                0 <= k < i + 1 && output_target(
                                    #[trigger] outs.subrange(0, i + 1)[k],
                                ) == p;
                            if k < i {
                                assert(outs.subrange(0, i as int)[k] == outs[k]);
                            }
                        }
                        if is_output_target(outs.subrange(0, i as int), p) {
                            let k = choose|k: int|
                                0 <= k < i && output_target(
                                    #[trigger] outs.subrange(0, i as int)[k],
                                ) == p;
                            assert(outs.subrange(0, i + 1)[k] == outs[k]);
                        }
                        if p == target {
                            assert(outs.subrange(0, i + 1)[i as int] == outs[i as int]);
                        }
                    }
                }
                assert(all@.to_set() =~= cells0.to_set().union(
                    Set::new(|p: Pos| is_input_target(ins, p)),
                ).union(Set::new(|p: Pos| is_output_target(outs.subrange(0, i + 1), p))));
            }
            i = i + 1;
        }
        assert(outs.subrange(0, outs.len() as int) =~= outs);
        proof {
            assert(components_error(cells0, ws, ins, outs) is None);
            // every original cell, input target and output target is a cell now
            assert forall|p: Pos| cells0.contains(p) implies all@.contains(p) by {
                assert(all@.to_set().contains(p));
            }
            assert forall|p: Pos| is_input_target(ins, p) implies all@.contains(p) by {
                assert(all@.to_set().contains(p));
            }
            assert forall|p: Pos| is_output_target(outs, p) implies all@.contains(p) by {
                assert(all@.to_set().contains(p));
            }
            assert forall|k: int| 0 <= k < ins.len() implies all@.contains(
                input_target(#[trigger] ins[k]),
            ) by {
                assert(is_input_target(ins, input_target(ins[k])));
            }
            assert forall|k: int| 0 <= k < outs.len() implies all@.contains(
                output_target(#[trigger] outs[k]),
            ) by {
                assert(is_output_target(outs, output_target(outs[k])));
            }
        }
        let incoming = build_incoming(&all, &wires);
        Ok(Circuit { cells: all, wires, inputs, outputs, modules: Vec::new(), incoming })
    }

    /// Builds a circuit from cells, wires, input/output components and module
    /// instances.
    ///
    /// The checks of `with_components` come first; then each module in order:
    /// its ports must form columns, its output column must be right of its
    /// input column, its output cells must have no incoming wire, must not be
    /// input targets and must not be used twice. The ports of the modules
    /// become cells.
    #[verifier::loop_isolation(false)]
    pub fn with_modules(
        cells: PosSet,
        wires: Vec<Wire>,
        inputs: Vec<Input>,
        outputs: Vec<Output>,
        modules: Vec<ResolvedModule>,
    ) -> (r: Result<Circuit, CircuitError>)
        ensures
            built_with_modules(cells@, wires@, inputs@, outputs@, modules@, r),
    {
        let ghost ws = wires@;
        let ghost ins = input_views(inputs@);
        let ghost mods = module_views(modules@);
        let circuit = Self::with_components(cells, wires, inputs, outputs)?;
        circuit.wf();
        let ghost mcheck = module_checks(ws, ins, mods);
        let mut seen = PosSet::new();
        let mut mi: usize = 0;
        while mi < modules.len()
            invariant
                mods == module_views(modules@),
                mi <= mods.len(),
                circuit@.wires == ws,
                circuit@.inputs == ins,
                first_some(mi as nat, mcheck) is None,
                sorted_strict(seen@),
                seen@.to_set() == Set::new(|p: Pos| is_module_output(mods, mi as int, p)),
            decreases mods.len() - mi,
        {
            let module = &modules[mi];
            assert(mods[mi as int] == module@);
            let ghost m = mods[mi as int];
            let input = module.input();
            let output = module.output();
            let mut err: Option<CircuitError> = None;
            if Self::validate_port_column(input).is_err() {
                err = Some(CircuitError::InvalidPortColumn);
            } else if Self::validate_port_column(output).is_err() {
                err = Some(CircuitError::InvalidPortColumn);
            } else if input.len() > 0 && output.len() > 0 && output[0].x <= input[0].x {
                err = Some(CircuitError::ModuleOutputBeforeInput);
            } else {
                match first_with_incoming(output, circuit.wires()) {
                    Some(p) => {
                        err = Some(CircuitError::ModuleOutputHasIncomingWires(p));
                    },
                    None => match first_input_target(output, circuit.inputs()) {
                        Some(p) => {
                            err = Some(CircuitError::ModuleOutputHasIncomingWires(p));
                        },
                        None => {
                            let ghost seen0 = seen@;
                            let mut k: usize = 0;
                            while k < output.len()
                                invariant
                                    output@ == m.output,
                                    k <= output@.len(),
                                    err is None,
                                    first_some(k as nat, duplicate_output_checks(mods, mi as int))
                                        is None,
                                    sorted_strict(seen@),
                                    seen@.to_set() == seen0.to_set().union(
                                        output@.subrange(0, k as int).to_set(),
                                    ),
                                decreases output@.len() - k,
                            {
                                let p = output[k];
                                assert(output@.subrange(0, k + 1) =~= output@.subrange(
                                    0,
                                    k as int,
                                ).push(p));
                                proof {
                                    lemma_push_to_set(output@.subrange(0, k as int), p);
                                }
                                let ghost dup = duplicate_output_checks(mods, mi as int)(k as int);
                                assert(seen@.contains(p) <==> seen@.to_set().contains(p));
                                if !seen.insert(p) {
                                    assert(dup == Some(p));
                                    proof {
                                        lemma_first_some_at(
                                            duplicate_output_checks(mods, mi as int),
                                            k as nat,
                                            output@.len(),
                                        );
                                    }
                                    err = Some(CircuitError::DuplicateModuleOutput(p));
                                    break;
                                }
                                assert(dup is None);
                                k = k + 1;
                            }
                        },
                    },
                }
            }
            assert(err == mcheck(mi as int));
            if let Some(e) = err {
                proof {
                    lemma_first_some_at(mcheck, mi as nat, mods.len());
                }
                return Err(e);
            }
            proof {
                assert(output@.subrange(0, output@.len() as int) =~= output@);
                assert(Set::new(|p: Pos| is_module_output(mods, mi + 1, p)) =~= Set::new(
                    |p: Pos| is_module_output(mods, mi as int, p),
                ).union(m.output.to_set())) by {
                    assert forall|p: Pos| is_module_output(mods, mi + 1, p) implies is_module_output(
                        mods,
                        mi as int,
                        p,
                    ) || m.output.contains(p) by {
                        let j = choose|j: int| 0 <= j < mi + 1 && (#[trigger] mods[j]).output.contains(
                            p,
                        );
                        if j < mi {
                        }
                    }
                }
            }
            mi = mi + 1;
        }
        proof {
            assert(modules_error(ws, ins, mods) is None);
        }
        let Circuit { cells: mut all, wires, inputs, outputs, modules: _, incoming: _ } = circuit;
        let ghost base = all@;
        let mut mi: usize = 0;
        while mi < modules.len()
            invariant
                mods == module_views(modules@),
                mi <= mods.len(),
                sorted_strict(all@),
                all@.to_set() == base.to_set().union(
                    Set::new(
                        |p: Pos|
                            is_module_output(mods, mi as int, p) || is_module_input(
                                mods,
                                mi as int,
                                p,
                            ),
                    ),
                ),
            decreases mods.len() - mi,
        {
            assert(mods[mi as int] == modules@[mi as int]@);
            let ghost m = mods[mi as int];
            add_ports(&mut all, modules[mi].output());
            add_ports(&mut all, modules[mi].input());
            proof {
                assert(all@.to_set() =~= base.to_set().union(
                    Set::new(
                        |p: Pos|
                            is_module_output(mods, mi + 1, p) || is_module_input(mods, mi + 1, p),
                    ),
                )) by {
                    assert forall|p: Pos|
                        is_module_output(mods, mi + 1, p) || is_module_input(
                            mods,
                            mi + 1,
                            p,
                        ) implies is_module_output(mods, mi as int, p) || is_module_input(
                            mods,
                            mi as int,
                            p,
                        ) || m.output.contains(p) || m.input.contains(p) by {
                        if is_module_output(mods, mi + 1, p) {
                            let j = choose|j: int|
                                0 <= j < mi + 1 && (#[trigger] mods[j]).output.contains(p);
                        }
                        if is_module_input(mods, mi + 1, p) {
                            let j = choose|j: int|
                                0 <= j < mi + 1 && (#[trigger] mods[j]).input.contains(p);
                        }
                    }
                }
            }
            mi = mi + 1;
        }
        proof {
            assert(Set::new(
                |p: Pos|
                    is_module_output(mods, mods.len() as int, p) || is_module_input(
                        mods,
                        mods.len() as int,
                        p,
                    ),
            ) =~= module_cells(mods));
            assert forall|q: Pos| base.contains(q) implies all@.contains(q) by {
                assert(all@.to_set().contains(q));
            }
        }
        let incoming = build_incoming(&all, &wires);
        Ok(Circuit { cells: all, wires, inputs, outputs, modules, incoming })
    }

    /// Builds a circuit from cells, wires and generators (as input components).
    #[verifier::loop_isolation(false)]
    pub fn with_generators(
        cells: PosSet,
        wires: Vec<Wire>,
        generators: Vec<Generator>,
    ) -> (r: Result<Circuit, CircuitError>)
        ensures
            ({
                let ins = generators@.map_values(|g: Generator| InputView::Generator(g@));
                match r {
                    Ok(c) => {
                        &&& components_error(cells@, wires@, ins, Seq::empty()) is None
                        &&& c@.cells.to_set() == component_cells(cells@, ins, Seq::empty())
                        &&& c@.wires == wires@
                        &&& c@.inputs == ins
                        &&& c@.outputs.len() == 0
                        &&& c.spec_modules().len() == 0
                    },
                    Err(e) => components_error(cells@, wires@, ins, Seq::empty()) == Some(e),
                }
            }),
    {
        let ghost ins = generators@.map_values(|g: Generator| InputView::Generator(g@));
        let mut inputs: Vec<Input> = Vec::new();
        let mut generators = generators;
        let ghost gs = generators@;
        // Move the generators, in order, into input components.
        while generators.len() > 0
            invariant
                inputs@.len() + generators@.len() == gs.len(),
                generators@ == gs.subrange(inputs@.len() as int, gs.len() as int),
                input_views(inputs@) =~= ins.subrange(0, inputs@.len() as int),
            decreases generators@.len(),
        {
            let ghost k = inputs@.len() as int;
            let g = generators.remove(0);
            assert(g == gs[k]);
            inputs.push(Input::Generator(g));
            assert(inputs@[k] == Input::Generator(g));
            assert(inputs@[k]@ == InputView::Generator(g@));
            assert(ins[k] == InputView::Generator(gs[k]@));
            assert(input_views(inputs@)[k] == ins[k]);
            assert(generators@ =~= gs.subrange(inputs@.len() as int, gs.len() as int));
            assert(input_views(inputs@) =~= ins.subrange(0, inputs@.len() as int));
        }
        assert(input_views(inputs@) =~= ins);
        let r = Self::with_components(cells, wires, inputs, Vec::new());
        assert(output_views(Seq::<Output>::empty()) =~= Seq::<OutputView>::empty());
        r
    }

    /// Whether the ports form one column: all at the same `x`, at consecutive
    /// increasing `y`.
    pub fn validate_port_column(ports: &[Pos]) -> (r: Result<(), CircuitError>)
        ensures
            r is Ok <==> port_column_ok(ports@),
            r matches Err(e) ==> e == CircuitError::InvalidPortColumn,
    {
        if ports.len() == 0 {
            return Ok(());
        }
        let x = ports[0].x;
        let y0 = ports[0].y as i64;
        let mut i: usize = 0;
        while i < ports.len()
            invariant
                ports@.len() > 0,
                x == ports@[0].x,
                y0 == ports@[0].y,
                i <= ports@.len(),
                forall|k: int|
                    0 <= k < i ==> (#[trigger] ports@[k]).x == ports@[0].x && ports@[k].y
                        == ports@[0].y + k,
            decreases ports@.len() - i,
        {
            if ports[i].x != x {
                return Err(CircuitError::InvalidPortColumn);
            }
            if ports[i].y as i128 != y0 as i128 + i as i128 {
                assert(!port_column_ok(ports@)) by {
                    assert(ports@[i as int].y != ports@[0].y + i);
                }
                return Err(CircuitError::InvalidPortColumn);
            }
            i = i + 1;
        }
        Ok(())
    }

    /// All cells, in increasing order.
    pub fn cells(&self) -> (s: &PosSet)
        ensures
            s@ == self@.cells,
    {
        &self.cells
    }

    /// All wires.
    pub fn wires(&self) -> (s: &[Wire])
        ensures
            s@ == self@.wires,
    {
        self.wires.as_slice()
    }

    /// All input components.
    pub fn inputs(&self) -> (s: &[Input])
        ensures
            input_views(s@) == self@.inputs,
    {
        self.inputs.as_slice()
    }

    /// All module instances.
    pub fn modules(&self) -> (s: &[ResolvedModule])
        ensures
            s@ == self.spec_modules(),
    {
        self.modules.as_slice()
    }

    /// All output components.
    pub fn outputs(&self) -> (s: &[Output])
        ensures
            output_views(s@) == self@.outputs,
    {
        self.outputs.as_slice()
    }

    /// The cells in propagation order, which is the increasing order.
    pub fn sorted_cells(&self) -> (s: &[Pos])
        ensures
            s@ == self@.cells,
            sorted_strict(s@),
    {
        proof {
            use_type_invariant(self);
        }
        self.cells.as_slice()
    }

    /// The place of `p` in the cell order, if it is a cell.
    pub fn cell_index(&self, p: Pos) -> (r: Option<usize>)
        ensures
            match r {
                Some(i) => i < self@.cells.len() && self@.cells[i as int] == p,
                None => !self@.cells.contains(p),
            },
    {
        self.cells.index_of(&p)
    }

    /// The indices of the wires that end at `dst`, in increasing order.
    pub fn incoming_indices(&self, dst: Pos) -> (s: &[usize])
        ensures
            s@ == incoming_of(self@.wires, dst),
    {
        proof {
            use_type_invariant(self);
        }
        match self.cells.index_of(&dst) {
            Some(k) => self.incoming[k].as_slice(),
            None => {
                proof {
                    lemma_incoming_empty(self.wires@, dst, self.wires@.len());
                }
                &[]
            },
        }
    }
}

/// Two strictly increasing sequences with the same elements are equal.
pub proof fn lemma_sorted_same_set(a: Seq<Pos>, b: Seq<Pos>)
    requires
        sorted_strict(a),
        sorted_strict(b),
        a.to_set() == b.to_set(),
    ensures
        a == b,
    decreases a.len() + b.len(),
{
    if a.len() == 0 {
        if b.len() > 0 {
            assert(b.to_set().contains(b[0]));
            assert(a.to_set().contains(b[0]));
        }
        assert(a =~= b);
    } else if b.len() == 0 {
        assert(a.to_set().contains(a[0]));
        assert(b.to_set().contains(a[0]));
    } else {
        // the last elements are the maxima, hence equal
        let la = a.last();
        let lb = b.last();
        assert(b.to_set().contains(la));
        assert(a.to_set().contains(lb));
        let ia = choose|i: int| 0 <= i < a.len() && a[i] == lb;
        let ib = choose|i: int| 0 <= i < b.len() && b[i] == la;
        if la != lb {
            if ia < a.len() - 1 {
                assert(crate::base::pos::pos_lt(lb, la));
            }
            if ib < b.len() - 1 {
                assert(crate::base::pos::pos_lt(la, lb));
            }
        }
        let a2 = a.drop_last();
        let b2 = b.drop_last();
        assert(a2.to_set() =~= b2.to_set()) by {
            assert forall|p: Pos| a2.contains(p) <==> b2.contains(p) by {
                if a2.contains(p) {
                    let k = choose|k: int| 0 <= k < a2.len() && a2[k] == p;
                    assert(a[k] == p);
                    assert(crate::base::pos::pos_lt(p, la));
                    assert(b.to_set().contains(p));
                    let m = choose|m: int| 0 <= m < b.len() && b[m] == p;
                    assert(m != b.len() - 1);
                    assert(b2[m] == p);
                }
                if b2.contains(p) {
                    let k = choose|k: int| 0 <= k < b2.len() && b2[k] == p;
                    assert(b[k] == p);
                    assert(crate::base::pos::pos_lt(p, lb));
                    assert(a.to_set().contains(p));
                    let m = choose|m: int| 0 <= m < a.len() && a[m] == p;
                    assert(m != a.len() - 1);
                    assert(a2[m] == p);
                }
            }
        }
        lemma_sorted_same_set(a2, b2);
        assert(a =~= a2.push(la));
        assert(b =~= b2.push(lb));
    }
}

} // verus!
