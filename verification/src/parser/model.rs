use vstd::prelude::*;

use crate::base::error::{FormatErrorView, ParseErrorView};
use crate::base::{CircuitError, Pos};
use crate::circuit::circuit::{
    component_cells, components_error, first_pos, first_some, incoming_pred, input_checks,
    module_cells, module_views, modules_error, output_checks, port_column_ok, wire_checks,
    wire_error, Circuit,
};
use crate::circuit::component::{InputView, OutputView};
use crate::circuit::generator::GeneratorView;
use crate::circuit::module::ModuleView;
use crate::circuit::tester::TesterView;
use crate::circuit::wire::Wire;
use crate::parser::json::{
    expected_of, pattern_of, pos_of, positions, wire_kind_of, CircuitJson, InputJson, ModuleJson,
    OutputJson, SubCircuitJson, WireJson,
};
use crate::parser::order::{module_sub_name, sub_names, unplaced_upto, joined, word_sub};

verus! {

/// The text `(missing sub_circuit field)`.
pub open spec fn missing_sub_text() -> Seq<char> {
    seq![
        '(', 'm', 'i', 's', 's', 'i', 'n', 'g', ' ', 's', 'u', 'b', '_', 'c', 'i', 'r', 'c', 'u',
        'i', 't', ' ', 'f', 'i', 'e', 'l', 'd', ')',
    ]
}

/// The place of the definition named `name` (names are distinct).
pub open spec fn def_index(subs: Seq<(String, SubCircuitJson)>, name: Seq<char>) -> int {
    choose|i: int| 0 <= i < subs.len() && subs[i].0@ == name
}

/// The definition named `name`.
pub open spec fn def_of(subs: Seq<(String, SubCircuitJson)>, name: Seq<char>) -> SubCircuitJson {
    subs[def_index(subs, name)].1
}

/// The wires the first `n` wire entries describe, or the first format error.
pub open spec fn wires_of(ws: Seq<WireJson>, n: nat) -> Result<Seq<Wire>, FormatErrorView>
    decreases n,
{
    if n == 0 {
        Ok(Seq::empty())
    } else {
        match wires_of(ws, (n - 1) as nat) {
            Err(e) => Err(e),
            Ok(r) => match wire_kind_of(ws[n - 1].kind@) {
                Err(e) => Err(e),
                Ok(k) => Ok(r.push(Wire { src: pos_of(ws[n - 1].src), dst: pos_of(ws[n - 1].dst), kind: k })),
            },
        }
    }
}

/// The input components the first `n` entries describe, or the first format
/// error.
pub open spec fn inputs_of(ins: Seq<InputJson>, n: nat) -> Result<Seq<InputView>, FormatErrorView>
    decreases n,
{
    if n == 0 {
        Ok(Seq::empty())
    } else {
        match inputs_of(ins, (n - 1) as nat) {
            Err(e) => Err(e),
            Ok(r) => match ins[n - 1] {
                InputJson::Generator { target, pattern, is_loop } => match pattern_of(pattern@) {
                    Err(e) => Err(e),
                    Ok(p) => Ok(
                        r.push(
                            InputView::Generator(
                                GeneratorView { target: pos_of(target), pattern: p, is_loop },
                            ),
                        ),
                    ),
                },
            },
        }
    }
}

/// Reading the input entries keeps each one in its place: the `k`-th
/// generator read has the target and the looping flag of the `k`-th entry.
pub proof fn lemma_inputs_of_entries(ins: Seq<InputJson>, n: nat)
    requires
        n <= ins.len(),
    ensures
        inputs_of(ins, n) matches Ok(r) ==> r.len() == n && forall|k: int|
            0 <= k < n ==> match (#[trigger] r[k], ins[k]) {
                (InputView::Generator(g), InputJson::Generator { target, is_loop, .. }) => g.is_loop
                    == is_loop && g.target.x == target@[0] && g.target.y == target@[1],
            },
    decreases n,
{
    if n > 0 {
        lemma_inputs_of_entries(ins, (n - 1) as nat);
    }
}

/// The output components the first `n` entries describe, or the first format
/// error.
pub open spec fn outputs_of(outs: Seq<OutputJson>, n: nat) -> Result<Seq<OutputView>, FormatErrorView>
    decreases n,
{
    if n == 0 {
        Ok(Seq::empty())
    } else {
        match outputs_of(outs, (n - 1) as nat) {
            Err(e) => Err(e),
            Ok(r) => match outs[n - 1] {
                OutputJson::Tester { target, expected, is_loop } => match expected_of(expected@) {
                    Err(e) => Err(e),
                    Ok(x) => Ok(
                        r.push(
                            OutputView::Tester(
                                TesterView { target: pos_of(target), expected: x, is_loop },
                            ),
                        ),
                    ),
                },
            },
        }
    }
}

/// The endpoints of the wires, source then destination, wire after wire.
pub open spec fn endpoints(ws: Seq<Wire>) -> Seq<Pos>
    decreases ws.len(),
{
    if ws.len() == 0 {
        Seq::empty()
    } else {
        endpoints(ws.drop_last()).push(ws.last().src).push(ws.last().dst)
    }
}

/// What a module entry resolves to when the sub-circuits named in `avail`
/// are built: its ports and the interface cells of its sub-circuit, or an
/// error (a kind other than `sub`, no sub-circuit named, a sub-circuit not
/// built, or port counts that differ from the sub-circuit's).
pub open spec fn module_result(
    subs: Seq<(String, SubCircuitJson)>,
    avail: Seq<Seq<char>>,
    m: ModuleJson,
) -> Result<ModuleView, ParseErrorView> {
    if m.module_type@ != word_sub() {
        Err(ParseErrorView::SubCircuitNotFound(m.module_type@))
    } else {
        match m.sub_circuit {
            None => Err(ParseErrorView::SubCircuitNotFound(missing_sub_text())),
            Some(n) => if !avail.contains(n@) {
                Err(ParseErrorView::SubCircuitNotFound(n@))
            } else {
                let d = def_of(subs, n@);
                let sin = positions(d.sub_input@);
                let sout = positions(d.sub_output@);
                if m.input@.len() != sin.len() {
                    Err(
                        ParseErrorView::Circuit(
                            CircuitError::SubInputCountMismatch {
                                expected: sin.len() as usize,
                                actual: m.input@.len() as usize,
                            },
                        ),
                    )
                } else if m.output@.len() != sout.len() {
                    Err(
                        ParseErrorView::Circuit(
                            CircuitError::SubOutputCountMismatch {
                                expected: sout.len() as usize,
                                actual: m.output@.len() as usize,
                            },
                        ),
                    )
                } else {
                    Ok(
                        ModuleView {
                            input: positions(m.input@),
                            output: positions(m.output@),
                            sub_input: sin,
                            sub_output: sout,
                        },
                    )
                }
            },
        }
    }
}

/// The modules the first `n` entries resolve to, or the first error.
pub open spec fn modules_result(
    subs: Seq<(String, SubCircuitJson)>,
    avail: Seq<Seq<char>>,
    ms: Seq<ModuleJson>,
    n: nat,
) -> Result<Seq<ModuleView>, ParseErrorView>
    decreases n,
{
    if n == 0 {
        Ok(Seq::empty())
    } else {
        match modules_result(subs, avail, ms, (n - 1) as nat) {
            Err(e) => Err(e),
            Ok(r) => match module_result(subs, avail, ms[n - 1]) {
                Err(e) => Err(e),
                Ok(mv) => Ok(r.push(mv)),
            },
        }
    }
}

/// The parts a sub-circuit definition is built from.
pub struct SubParts {
    /// The wire endpoints, then the interface cells.
    pub cells: Seq<Pos>,
    pub wires: Seq<Wire>,
    pub modules: Seq<ModuleView>,
}

/// What building a sub-circuit definition gives when the sub-circuits named
/// in `avail` are built: the first error among its wires, an interface input
/// with incoming wires, interface ports that are not columns, an output
/// column not right of the input column, its modules, and the structure of
/// the circuit they make; or the parts of that circuit.
pub open spec fn sub_result(
    subs: Seq<(String, SubCircuitJson)>,
    avail: Seq<Seq<char>>,
    d: SubCircuitJson,
) -> Result<SubParts, ParseErrorView> {
    match wires_of(d.wires@, d.wires@.len()) {
        Err(e) => Err(ParseErrorView::Format(e)),
        Ok(ws) => {
            let sin = positions(d.sub_input@);
            let sout = positions(d.sub_output@);
            match first_pos(sin, incoming_pred(ws)) {
                Some(p) => Err(ParseErrorView::Circuit(CircuitError::SubInputHasIncomingWires(p))),
                None => if !port_column_ok(sin) || !port_column_ok(sout) {
                    Err(ParseErrorView::Circuit(CircuitError::InvalidPortColumn))
                } else if sin.len() > 0 && sout.len() > 0 && sout[0].x <= sin[0].x {
                    Err(ParseErrorView::Circuit(CircuitError::SubOutputBeforeSubInput))
                } else {
                    match modules_result(subs, avail, d.modules@, d.modules@.len()) {
                        Err(e) => Err(e),
                        Ok(mvs) => {
                            let cells = endpoints(ws) + sin + sout;
                            match components_error(cells, ws, Seq::empty(), Seq::empty()) {
                                Some(e) => Err(ParseErrorView::Circuit(e)),
                                None => match modules_error(ws, Seq::empty(), mvs) {
                                    Some(e) => Err(ParseErrorView::Circuit(e)),
                                    None => Ok(SubParts { cells, wires: ws, modules: mvs }),
                                },
                            }
                        },
                    }
                },
            }
        },
    }
}

/// Whether `c` is the circuit these parts make, at its own level.
pub open spec fn level_built(p: SubParts, c: Circuit) -> bool {
    &&& c@.cells.to_set() == p.cells.to_set().union(module_cells(p.modules))
    &&& c@.wires == p.wires
    &&& c@.inputs.len() == 0
    &&& c@.outputs.len() == 0
    &&& module_views(c.spec_modules()) == p.modules
}

/// Whether `c` is the circuit built from the definition named `name`, down
/// to `depth` levels of nested modules: its own level, and the circuit of
/// each of its modules is the one built from the definition that module
/// names.
pub open spec fn built_from(
    subs: Seq<(String, SubCircuitJson)>,
    name: Seq<char>,
    c: Circuit,
    depth: nat,
) -> bool
    decreases depth,
{
    if depth == 0 {
        false
    } else {
        let d = def_of(subs, name);
        &&& sub_names(subs).contains(name)
        &&& sub_result(subs, sub_names(subs), d) is Ok
        &&& level_built(sub_result(subs, sub_names(subs), d)->Ok_0, c)
        &&& forall|j: int|
            0 <= j < c.spec_modules().len() ==> built_from(
                subs,
                module_sub_name(d.modules@[j])->Some_0,
                #[trigger] c.spec_modules()[j].spec_circuit(),
                (depth - 1) as nat,
            )
    }
}

/// The error of the `k`-th definition of `order`, built after those before it.
pub open spec fn sub_checks(subs: Seq<(String, SubCircuitJson)>, order: Seq<Seq<char>>) -> spec_fn(
    int,
) -> Option<ParseErrorView> {
    |k: int|
        match sub_result(subs, order.subrange(0, k), def_of(subs, order[k])) {
            Err(e) => Some(e),
            Ok(_) => None,
        }
}

/// The error of building the definitions in the build order `order`: the
/// names that cannot be placed, else the first definition that fails.
pub open spec fn subs_error(subs: Seq<(String, SubCircuitJson)>, order: Seq<Seq<char>>) -> Option<
    ParseErrorView,
> {
    let left = unplaced_upto(subs, order, subs.len());
    if left.len() > 0 {
        Some(ParseErrorView::CircularDependency(joined(left)))
    } else {
        first_some(order.len(), sub_checks(subs, order))
    }
}

/// The parts of a whole circuit.
pub struct TopParts {
    /// The wire endpoints.
    pub cells: Seq<Pos>,
    pub wires: Seq<Wire>,
    pub inputs: Seq<InputView>,
    pub outputs: Seq<OutputView>,
    pub modules: Seq<ModuleView>,
}

/// What reading a circuit description gives, the sub-circuits being built in
/// the build order `order`: the first error among the sub-circuits, the
/// wires, the inputs, the outputs, the modules and the structure of the
/// circuit; or its parts.
pub open spec fn json_result(value: CircuitJson, order: Seq<Seq<char>>) -> Result<TopParts, ParseErrorView> {
    match subs_error(value.subs@, order) {
        Some(e) => Err(e),
        None => match wires_of(value.wires@, value.wires@.len()) {
            Err(e) => Err(ParseErrorView::Format(e)),
            Ok(ws) => match inputs_of(value.input@, value.input@.len()) {
                Err(e) => Err(ParseErrorView::Format(e)),
                Ok(ins) => match outputs_of(value.output@, value.output@.len()) {
                    Err(e) => Err(ParseErrorView::Format(e)),
                    Ok(outs) => match modules_result(
                        value.subs@,
                        order,
                        value.modules@,
                        value.modules@.len(),
                    ) {
                        Err(e) => Err(e),
                        Ok(mvs) => {
                            let cells = endpoints(ws);
                            match components_error(cells, ws, ins, outs) {
                                Some(e) => Err(ParseErrorView::Circuit(e)),
                                None => match modules_error(ws, ins, mvs) {
                                    Some(e) => Err(ParseErrorView::Circuit(e)),
                                    None => Ok(
                                        TopParts {
                                            cells,
                                            wires: ws,
                                            inputs: ins,
                                            outputs: outs,
                                            modules: mvs,
                                        },
                                    ),
                                },
                            }
                        },
                    },
                },
            },
        },
    }
}

/// The structure checks only ask whether a position is a cell: cells with
/// the same elements give the same first error.
pub proof fn lemma_components_error_cells(
    a: Seq<Pos>,
    b: Seq<Pos>,
    ws: Seq<Wire>,
    ins: Seq<InputView>,
    outs: Seq<OutputView>,
)
    requires
        a.to_set() == b.to_set(),
    ensures
        components_error(a, ws, ins, outs) == components_error(b, ws, ins, outs),
{
    assert forall|p: Pos| a.contains(p) <==> b.contains(p) by {
        if a.contains(p) {
            assert(a.to_set().contains(p));
            assert(b.to_set().contains(p));
        }
        if b.contains(p) {
            assert(b.to_set().contains(p));
            assert(a.to_set().contains(p));
        }
    }
    assert(wire_checks(a, ws) =~= wire_checks(b, ws)) by {
        assert forall|i: int| wire_error(a, ws, i) == wire_error(b, ws, i) by {}
    }
}

/// A module that resolves when some sub-circuits are built resolves the same
/// way when more are.
pub proof fn lemma_modules_result_more(
    subs: Seq<(String, SubCircuitJson)>,
    avail: Seq<Seq<char>>,
    avail2: Seq<Seq<char>>,
    ms: Seq<ModuleJson>,
    n: nat,
)
    requires
        forall|x: Seq<char>| avail.contains(x) ==> avail2.contains(x),
        modules_result(subs, avail, ms, n) is Ok,
    ensures
        modules_result(subs, avail2, ms, n) == modules_result(subs, avail, ms, n),
    decreases n,
{
    if n > 0 {
        lemma_modules_result_more(subs, avail, avail2, ms, (n - 1) as nat);
    }
}

/// A definition that builds when some sub-circuits are built builds the same
/// way when more are.
pub proof fn lemma_sub_result_more(
    subs: Seq<(String, SubCircuitJson)>,
    avail: Seq<Seq<char>>,
    avail2: Seq<Seq<char>>,
    d: SubCircuitJson,
)
    requires
        forall|x: Seq<char>| avail.contains(x) ==> avail2.contains(x),
        sub_result(subs, avail, d) is Ok,
    ensures
        sub_result(subs, avail2, d) == sub_result(subs, avail, d),
{
    lemma_modules_result_more(subs, avail, avail2, d.modules@, d.modules@.len());
}

/// What is built down to some depth is built down to any greater depth.
pub proof fn lemma_built_from_deeper(
    subs: Seq<(String, SubCircuitJson)>,
    name: Seq<char>,
    c: Circuit,
    depth: nat,
    depth2: nat,
)
    requires
        built_from(subs, name, c, depth),
        depth <= depth2,
    ensures
        built_from(subs, name, c, depth2),
    decreases depth,
{
    let d = def_of(subs, name);
    assert forall|j: int| 0 <= j < c.spec_modules().len() implies built_from(
        subs,
        module_sub_name(d.modules@[j])->Some_0,
        #[trigger] c.spec_modules()[j].spec_circuit(),
        (depth2 - 1) as nat,
    ) by {
        lemma_built_from_deeper(
            subs,
            module_sub_name(d.modules@[j])->Some_0,
            c.spec_modules()[j].spec_circuit(),
            (depth - 1) as nat,
            (depth2 - 1) as nat,
        );
    }
}

/// Reading the wire entries keeps each one in its place: the `k`-th wire
/// read goes from the `k`-th entry's source to its destination.
pub proof fn lemma_wires_of_entries(ws: Seq<WireJson>, n: nat)
    requires
        n <= ws.len(),
    ensures
        wires_of(ws, n) matches Ok(r) ==> r.len() == n && forall|k: int|
            0 <= k < n ==> (#[trigger] r[k]).src.x == ws[k].src@[0] && r[k].src.y == ws[k].src@[1]
                && r[k].dst.x == ws[k].dst@[0] && r[k].dst.y == ws[k].dst@[1],
    decreases n,
{
    if n > 0 {
        lemma_wires_of_entries(ws, (n - 1) as nat);
    }
}

/// Reading the output entries keeps each one in its place: the `k`-th tester
/// read has the target and the looping flag of the `k`-th entry.
pub proof fn lemma_outputs_of_entries(outs: Seq<OutputJson>, n: nat)
    requires
        n <= outs.len(),
    ensures
        outputs_of(outs, n) matches Ok(r) ==> r.len() == n && forall|k: int|
            0 <= k < n ==> match (#[trigger] r[k], outs[k]) {
                (OutputView::Tester(t), OutputJson::Tester { target, is_loop, .. }) => t.is_loop
                    == is_loop && t.target.x == target@[0] && t.target.y == target@[1],
            },
    decreases n,
{
    if n > 0 {
        lemma_outputs_of_entries(outs, (n - 1) as nat);
    }
}

/// A circuit read from a description keeps its entries in place: one wire,
/// one input component and one output component per entry, in order, each
/// with the endpoints, target and looping flag of its entry.
pub proof fn lemma_json_entries(value: CircuitJson, order: Seq<Seq<char>>)
    requires
        json_result(value, order) is Ok,
    ensures
        ({
            let parts = json_result(value, order)->Ok_0;
            &&& parts.wires.len() == value.wires@.len()
            &&& forall|k: int|
                0 <= k < parts.wires.len() ==> (#[trigger] parts.wires[k]).src.x == value.wires@[k].src@[0]
                    && parts.wires[k].src.y == value.wires@[k].src@[1] && parts.wires[k].dst.x
                    == value.wires@[k].dst@[0] && parts.wires[k].dst.y == value.wires@[k].dst@[1]
            &&& parts.inputs.len() == value.input@.len()
            &&& forall|k: int|
                0 <= k < parts.inputs.len() ==> match (#[trigger] parts.inputs[k], value.input@[k]) {
                    (InputView::Generator(g), InputJson::Generator { target, is_loop, .. }) => g.is_loop
                        == is_loop && g.target.x == target@[0] && g.target.y == target@[1],
                }
            &&& parts.outputs.len() == value.output@.len()
            &&& forall|k: int|
                0 <= k < parts.outputs.len() ==> match (#[trigger] parts.outputs[k], value.output@[k]) {
                    (OutputView::Tester(t), OutputJson::Tester { target, is_loop, .. }) => t.is_loop
                        == is_loop && t.target.x == target@[0] && t.target.y == target@[1],
                }
        }),
{
    lemma_wires_of_entries(value.wires@, value.wires@.len());
    lemma_inputs_of_entries(value.input@, value.input@.len());
    lemma_outputs_of_entries(value.output@, value.output@.len());
}

/// Once a wire entry fails, the error stays the first one of every longer list.
pub proof fn lemma_wires_of_err(ws: Seq<WireJson>, m: nat, n: nat)
    requires
        m <= n,
        wires_of(ws, m) is Err,
    ensures
        wires_of(ws, n) == wires_of(ws, m),
    decreases n,
{
    if n > m {
        lemma_wires_of_err(ws, m, (n - 1) as nat);
    }
}

/// Once an input entry fails, the error stays the first one.
pub proof fn lemma_inputs_of_err(ins: Seq<InputJson>, m: nat, n: nat)
    requires
        m <= n,
        inputs_of(ins, m) is Err,
    ensures
        inputs_of(ins, n) == inputs_of(ins, m),
    decreases n,
{
    if n > m {
        lemma_inputs_of_err(ins, m, (n - 1) as nat);
    }
}

/// Once an output entry fails, the error stays the first one.
pub proof fn lemma_outputs_of_err(outs: Seq<OutputJson>, m: nat, n: nat)
    requires
        m <= n,
        outputs_of(outs, m) is Err,
    ensures
        outputs_of(outs, n) == outputs_of(outs, m),
    decreases n,
{
    if n > m {
        lemma_outputs_of_err(outs, m, (n - 1) as nat);
    }
}

/// Once a module entry fails, the error stays the first one.
pub proof fn lemma_modules_result_err(
    subs: Seq<(String, SubCircuitJson)>,
    avail: Seq<Seq<char>>,
    ms: Seq<ModuleJson>,
    m: nat,
    n: nat,
)
    requires
        m <= n,
        modules_result(subs, avail, ms, m) is Err,
    ensures
        modules_result(subs, avail, ms, n) == modules_result(subs, avail, ms, m),
    decreases n,
{
    if n > m {
        lemma_modules_result_err(subs, avail, ms, m, (n - 1) as nat);
    }
}

/// The elements of two sequences one after the other are those of either.
pub proof fn lemma_concat_to_set(a: Seq<Pos>, b: Seq<Pos>)
    ensures
        (a + b).to_set() == a.to_set().union(b.to_set()),
{
    assert forall|p: Pos| #[trigger] (a + b).to_set().contains(p) <==> a.to_set().union(b.to_set()).contains(p) by {
        if (a + b).contains(p) {
            let k = choose|k: int| 0 <= k < (a + b).len() && (a + b)[k] == p;
            if k < a.len() {
                assert(a[k] == p);
            } else {
                assert(b[k - a.len()] == p);
            }
        }
        if a.contains(p) {
            let k = choose|k: int| 0 <= k < a.len() && a[k] == p;
            assert((a + b)[k] == p);
        }
        if b.contains(p) {
            let k = choose|k: int| 0 <= k < b.len() && b[k] == p;
            assert((a + b)[a.len() + k] == p);
        }
    }
    assert((a + b).to_set() =~= a.to_set().union(b.to_set()));
}

} // verus!
