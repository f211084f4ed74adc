use std::rc::Rc;

use vstd::prelude::*;

use crate::base::error::{FormatErrorView, ParseErrorView};
use crate::base::pos::Pos;
use crate::base::pos_set::sorted_strict;
use crate::base::{CircuitError, PosSet};
use crate::circuit::circuit::{
    add_ports, first_with_incoming, module_views, input_views, output_views, first_pos, incoming_pred, port_column_ok,
};
use crate::circuit::module::ResolvedModule;
use crate::circuit::wire::Wire;
use crate::parser::model::{
    built_from, def_of, endpoints, level_built, lemma_built_from_deeper, lemma_sub_result_more,
    lemma_components_error_cells, lemma_concat_to_set, lemma_modules_result_err, lemma_wires_of_err,
    missing_sub_text, module_result, modules_result, sub_result, wires_of,
};
use crate::base::pos_set::lemma_push_to_set;
use crate::parser::order::{lemma_build_order_deps, lemma_build_order_len, sub_names};
use crate::parser::model::{
    json_result, lemma_inputs_of_err, lemma_outputs_of_err, sub_checks, subs_error, inputs_of,
    outputs_of,
};
use crate::circuit::circuit::{component_cells, first_some, lemma_first_some_at, module_cells};
use crate::circuit::{CircuitBuilder, Generator, Input, Output, Tester};
use crate::base::text::{empty_string, int_decimal, push_char, push_i64};
use crate::base::{FormatError, ParseError};
use crate::circuit::circuit::CircuitView;
use crate::circuit::wire::WireKind;
use crate::circuit::Circuit;
use crate::parser::order::{
    deps_placed, greatest_ready_at, is_build_order, is_ready, joined, lemma_text_order,
    module_sub_name, names_distinct, text_less, text_lt, unplaced_upto, word_sub,
};
use crate::simulation::engine::{Simulator, TickOutput, TickOutputView};
use crate::simulation::engine_simple::{
    initial_view, lemma_can_run, sim_wf, ticks_view, SimulatorSimple,
};

verus! {

/// A circuit description: wires, components, modules and the sub-circuits
/// the modules name.
#[derive(Debug)]
pub struct CircuitJson {
    pub wires: Vec<WireJson>,
    pub input: Vec<InputJson>,
    pub output: Vec<OutputJson>,
    /// Older form of `input`; accepted and not used.
    pub generators: Vec<GeneratorJson>,
    /// Older form of `output`; accepted and not used.
    pub testers: Vec<TesterJson>,
    pub modules: Vec<ModuleJson>,
    /// The sub-circuit definitions, by name (each name once).
    pub subs: Vec<(String, SubCircuitJson)>,
}

/// A module instance: its kind (`sub`), the sub-circuit it instantiates and
/// its port cells.
#[derive(Debug)]
pub struct ModuleJson {
    pub module_type: String,
    pub sub_circuit: Option<String>,
    pub input: Vec<[i32; 2]>,
    pub output: Vec<[i32; 2]>,
}

/// A sub-circuit definition.
#[derive(Debug)]
pub struct SubCircuitJson {
    pub wires: Vec<WireJson>,
    pub sub_input: Vec<[i32; 2]>,
    pub sub_output: Vec<[i32; 2]>,
    pub modules: Vec<ModuleJson>,
}

/// A wire: source and destination cells and the kind (`positive` or
/// `negative`).
#[derive(Debug)]
pub struct WireJson {
    pub src: [i32; 2],
    pub dst: [i32; 2],
    pub kind: String,
}

/// A generator in the older form.
#[derive(Debug)]
pub struct GeneratorJson {
    pub target: [i32; 2],
    pub pattern: String,
    pub is_loop: bool,
}

/// A tester in the older form.
#[derive(Debug)]
pub struct TesterJson {
    pub target: [i32; 2],
    pub expected: String,
    pub is_loop: bool,
}

/// An input component.
#[derive(Debug)]
pub enum InputJson {
    Generator { target: [i32; 2], pattern: String, is_loop: bool },
}

/// An output component.
#[derive(Debug)]
pub enum OutputJson {
    Tester { target: [i32; 2], expected: String, is_loop: bool },
}

/// The states of a run, tick after tick.
#[derive(Debug)]
pub struct SimulationOutputJson {
    pub ticks: Vec<TickStateJson>,
}

/// The state of the collected cells after one tick: `"x,y"` and `0` or `1`,
/// one entry per cell, in cell order.
#[derive(Debug)]
pub struct TickStateJson {
    pub tick: u64,
    pub cells: Vec<(String, u8)>,
}

/// The cell a coordinate pair names.
pub open spec fn pos_of(a: [i32; 2]) -> Pos {
    Pos { x: a@[0], y: a@[1] }
}

/// The cells a list of coordinate pairs names.
pub open spec fn positions(s: Seq<[i32; 2]>) -> Seq<Pos> {
    s.map_values(|a: [i32; 2]| pos_of(a))
}

/// The word `positive`.
pub open spec fn word_positive() -> Seq<char> {
    seq!['p', 'o', 's', 'i', 't', 'i', 'v', 'e']
}

/// The word `negative`.
pub open spec fn word_negative() -> Seq<char> {
    seq!['n', 'e', 'g', 'a', 't', 'i', 'v', 'e']
}

/// The wire kind a word names.
pub open spec fn wire_kind_of(s: Seq<char>) -> Result<WireKind, FormatErrorView> {
    if s == word_positive() {
        Ok(WireKind::Positive)
    } else if s == word_negative() {
        Ok(WireKind::Negative)
    } else {
        Err(FormatErrorView::InvalidWireKind(s))
    }
}

/// The value of a pattern character: `1` is on, `0` is off.
pub open spec fn pattern_bit(c: char) -> Option<bool> {
    if c == '1' {
        Some(true)
    } else if c == '0' {
        Some(false)
    } else {
        None
    }
}

/// The pattern a text describes, or the error of its first invalid character.
pub open spec fn pattern_of(s: Seq<char>) -> Result<Seq<bool>, FormatErrorView>
    decreases s.len(),
{
    if s.len() == 0 {
        Ok(Seq::empty())
    } else {
        match pattern_bit(s[0]) {
            None => Err(FormatErrorView::InvalidPatternChar(s[0])),
            Some(b) => match pattern_of(s.drop_first()) {
                Ok(r) => Ok(seq![b] + r),
                Err(e) => Err(e),
            },
        }
    }
}

/// The expectation of a character: `1` and `0` expect that value, `x`
/// expects nothing.
pub open spec fn expected_bit(c: char) -> Option<Option<bool>> {
    if c == '1' {
        Some(Some(true))
    } else if c == '0' {
        Some(Some(false))
    } else if c == 'x' {
        Some(None)
    } else {
        None
    }
}

/// The expected pattern a text describes, or the error of its first invalid
/// character.
pub open spec fn expected_of(s: Seq<char>) -> Result<Seq<Option<bool>>, FormatErrorView>
    decreases s.len(),
{
    if s.len() == 0 {
        Ok(Seq::empty())
    } else {
        match expected_bit(s[0]) {
            None => Err(FormatErrorView::InvalidExpectedPatternChar(s[0])),
            Some(b) => match expected_of(s.drop_first()) {
                Ok(r) => Ok(seq![b] + r),
                Err(e) => Err(e),
            },
        }
    }
}

/// Whether two texts are equal.
fn text_equals(a: &str, b: &str) -> (r: bool)
    ensures
        r == (a@ == b@),
{
    let n = a.unicode_len();
    if n != b.unicode_len() {
        return false;
    }
    let mut i: usize = 0;
    while i < n
        invariant
            n == a@.len(),
            n == b@.len(),
            i <= n,
            a@.subrange(0, i as int) == b@.subrange(0, i as int),
        decreases n - i,
    {
        if a.get_char(i) != b.get_char(i) {
            assert(a@[i as int] != b@[i as int]);
            return false;
        }
        assert(a@.subrange(0, i + 1) =~= a@.subrange(0, i as int).push(a@[i as int]));
        assert(b@.subrange(0, i + 1) =~= b@.subrange(0, i as int).push(b@[i as int]));
        i = i + 1;
    }
    assert(a@ =~= a@.subrange(0, n as int));
    assert(b@ =~= b@.subrange(0, n as int));
    true
}

/// The wire kind that `kind` names: `positive` or `negative`.
pub fn parse_wire_kind(kind: &str) -> (r: Result<WireKind, FormatError>)
    ensures
        match r {
            Ok(k) => wire_kind_of(kind@) == Ok::<WireKind, FormatErrorView>(k),
            Err(e) => wire_kind_of(kind@) == Err::<WireKind, FormatErrorView>(e@),
        },
{
    proof {
        reveal_strlit("positive");
        reveal_strlit("negative");
    }
    assert("positive"@ =~= word_positive());
    assert("negative"@ =~= word_negative());
    if text_equals(kind, "positive") {
        Ok(WireKind::Positive)
    } else if text_equals(kind, "negative") {
        Ok(WireKind::Negative)
    } else {
        Err(FormatError::InvalidWireKind(kind.to_owned()))
    }
}

/// The pattern a text of `0` and `1` describes; the first other character is
/// an error.
pub fn parse_pattern(pattern: &str) -> (r: Result<Vec<bool>, FormatError>)
    ensures
        match r {
            Ok(v) => pattern_of(pattern@) == Ok::<Seq<bool>, FormatErrorView>(v@),
            Err(e) => pattern_of(pattern@) == Err::<Seq<bool>, FormatErrorView>(e@),
        },
{
    let n = pattern.unicode_len();
    let mut out: Vec<bool> = Vec::new();
    let mut i: usize = 0;
    assert(pattern@.subrange(0, n as int) =~= pattern@);
    proof {
        match pattern_of(pattern@) {
            Ok(r) => assert(out@ + r =~= r),
            Err(e) => {},
        }
    }
    while i < n
        invariant
            n == pattern@.len(),
            i <= n,
            pattern_of(pattern@) == (match pattern_of(pattern@.subrange(i as int, n as int)) {
                Ok(r) => Ok(out@ + r),
                Err(e) => Err::<Seq<bool>, FormatErrorView>(e),
            }),
        decreases n - i,
    {
        let ghost rest = pattern@.subrange(i as int, n as int);
        assert(rest.drop_first() =~= pattern@.subrange(i + 1, n as int));
        let c = pattern.get_char(i);
        assert(rest[0] == c);
        let ghost old_out = out@;
        if c == '1' {
            out.push(true);
        } else if c == '0' {
            out.push(false);
        } else {
            return Err(FormatError::InvalidPatternChar(c));
        }
        proof {
            let b = out@.last();
            assert(pattern_bit(rest[0]) == Some(b));
            assert(rest.len() > 0);
            assert(pattern_of(rest) == (match pattern_of(rest.drop_first()) {
                Ok(r) => Ok(seq![b] + r),
                Err(e) => Err::<Seq<bool>, FormatErrorView>(e),
            }));
            match pattern_of(rest.drop_first()) {
                Ok(r) => {
                    assert(old_out + (seq![b] + r) =~= out@ + r);
                },
                Err(e) => {},
            }
        }
        i = i + 1;
    }
    assert(pattern@.subrange(n as int, n as int) =~= Seq::<char>::empty());
    assert(out@ + Seq::<bool>::empty() =~= out@);
    Ok(out)
}

/// The expected pattern a text of `0`, `1` and `x` describes; the first
/// other character is an error.
pub fn parse_expected_pattern(pattern: &str) -> (r: Result<Vec<Option<bool>>, FormatError>)
    ensures
        match r {
            Ok(v) => expected_of(pattern@) == Ok::<Seq<Option<bool>>, FormatErrorView>(v@),
            Err(e) => expected_of(pattern@) == Err::<Seq<Option<bool>>, FormatErrorView>(e@),
        },
{
    let n = pattern.unicode_len();
    let mut out: Vec<Option<bool>> = Vec::new();
    let mut i: usize = 0;
    assert(pattern@.subrange(0, n as int) =~= pattern@);
    proof {
        match expected_of(pattern@) {
            Ok(r) => assert(out@ + r =~= r),
            Err(e) => {},
        }
    }
    while i < n
        invariant
            n == pattern@.len(),
            i <= n,
            expected_of(pattern@) == (match expected_of(pattern@.subrange(i as int, n as int)) {
                Ok(r) => Ok(out@ + r),
                Err(e) => Err::<Seq<Option<bool>>, FormatErrorView>(e),
            }),
        decreases n - i,
    {
        let ghost rest = pattern@.subrange(i as int, n as int);
        assert(rest.drop_first() =~= pattern@.subrange(i + 1, n as int));
        let c = pattern.get_char(i);
        assert(rest[0] == c);
        let ghost old_out = out@;
        if c == '1' {
            out.push(Some(true));
        } else if c == '0' {
            out.push(Some(false));
        } else if c == 'x' {
            out.push(None);
        } else {
            return Err(FormatError::InvalidExpectedPatternChar(c));
        }
        proof {
            let b = out@.last();
            assert(expected_bit(rest[0]) == Some(b));
            assert(rest.len() > 0);
            assert(expected_of(rest) == (match expected_of(rest.drop_first()) {
                Ok(r) => Ok(seq![b] + r),
                Err(e) => Err::<Seq<Option<bool>>, FormatErrorView>(e),
            }));
            match expected_of(rest.drop_first()) {
                Ok(r) => {
                    assert(old_out + (seq![b] + r) =~= out@ + r);
                },
                Err(e) => {},
            }
        }
        i = i + 1;
    }
    assert(pattern@.subrange(n as int, n as int) =~= Seq::<char>::empty());
    assert(out@ + Seq::<Option<bool>>::empty() =~= out@);
    Ok(out)
}

/// The word `positive` names a positive wire and `negative` a negative one;
/// any other word is refused as itself.
pub proof fn lemma_wire_kind_words(w: Seq<char>)
    ensures
        (wire_kind_of(w) == Ok::<WireKind, FormatErrorView>(WireKind::Positive)) <==> w =~= seq![
            'p',
            'o',
            's',
            'i',
            't',
            'i',
            'v',
            'e',
        ],
        (wire_kind_of(w) == Ok::<WireKind, FormatErrorView>(WireKind::Negative)) <==> w =~= seq![
            'n',
            'e',
            'g',
            'a',
            't',
            'i',
            'v',
            'e',
        ],
        wire_kind_of(w) is Err ==> wire_kind_of(w) == Err::<WireKind, FormatErrorView>(
            FormatErrorView::InvalidWireKind(w),
        ),
{
}

/// A pattern reads exactly when every character is `0` or `1`, and then it
/// has one value per character: on for `1`, off for `0`.
pub proof fn lemma_pattern_chars(t: Seq<char>)
    ensures
        (pattern_of(t) is Ok) <==> forall|k: int| 0 <= k < t.len() ==> (#[trigger] t[k] == '0' || t[k] == '1'),
        pattern_of(t) matches Ok(r) ==> r.len() == t.len() && forall|k: int|
            0 <= k < t.len() ==> (#[trigger] r[k]) == (t[k] == '1'),
    decreases t.len(),
{
    if t.len() > 0 {
        lemma_pattern_chars(t.drop_first());
        assert forall|k: int| 1 <= k < t.len() implies #[trigger] t[k] == t.drop_first()[k - 1] by {}
        if pattern_of(t) is Ok {
            assert forall|k: int| 0 <= k < t.len() implies (#[trigger] t[k] == '0' || t[k] == '1') by {
                if k > 0 {
                    assert(t.drop_first()[k - 1] == t[k]);
                }
            }
        }
        if forall|k: int| 0 <= k < t.len() ==> (#[trigger] t[k] == '0' || t[k] == '1') {
            assert forall|k: int| 0 <= k < t.drop_first().len() implies (#[trigger] t.drop_first()[k]
                == '0' || t.drop_first()[k] == '1') by {
                assert(t.drop_first()[k] == t[k + 1]);
            }
        }
    }
}

/// An expected pattern reads exactly when every character is `0`, `1` or
/// `x`, and then it has one expectation per character: `x` expects nothing,
/// `1` expects on and `0` expects off.
pub proof fn lemma_expected_chars(t: Seq<char>)
    ensures
        (expected_of(t) is Ok) <==> forall|k: int|
            0 <= k < t.len() ==> (#[trigger] t[k] == '0' || t[k] == '1' || t[k] == 'x'),
        expected_of(t) matches Ok(r) ==> r.len() == t.len() && forall|k: int|
            0 <= k < t.len() ==> (#[trigger] r[k]) == (if t[k] == 'x' {
                None
            } else {
                Some(t[k] == '1')
            }),
    decreases t.len(),
{
    if t.len() > 0 {
        lemma_expected_chars(t.drop_first());
        if expected_of(t) is Ok {
            assert forall|k: int| 0 <= k < t.len() implies (#[trigger] t[k] == '0' || t[k] == '1'
                || t[k] == 'x') by {
                if k > 0 {
                    assert(t.drop_first()[k - 1] == t[k]);
                }
            }
        }
        if forall|k: int| 0 <= k < t.len() ==> (#[trigger] t[k] == '0' || t[k] == '1' || t[k] == 'x') {
            assert forall|k: int| 0 <= k < t.drop_first().len() implies (#[trigger] t.drop_first()[k]
                == '0' || t.drop_first()[k] == '1' || t.drop_first()[k] == 'x') by {
                assert(t.drop_first()[k] == t[k + 1]);
            }
        }
    }
}

/// The key of a cell in the output: `x,y`.
pub open spec fn json_key(p: Pos) -> Seq<char> {
    int_decimal(p.x as int) + seq![','] + int_decimal(p.y as int)
}

/// The key of a cell in the output: `x,y`.
fn pos_to_json_key(pos: Pos) -> (s: String)
    ensures
        s@ == json_key(pos),
{
    let mut s = empty_string();
    push_i64(&mut s, pos.x as i64);
    push_char(&mut s, ',');
    push_i64(&mut s, pos.y as i64);
    assert(s@ =~= json_key(pos));
    s
}

/// Whether a tick state shows the output `o`: the same tick, and one entry
/// per collected cell, in order, with its key and `1` or `0`.
pub open spec fn tick_state_shows(t: TickStateJson, o: TickOutputView) -> bool {
    &&& t.tick == o.tick
    &&& t.cells@.len() == o.cells.len()
    &&& forall|k: int|
        0 <= k < o.cells.len() ==> (#[trigger] t.cells@[k]).0@ == json_key(o.cells[k].0)
            && t.cells@[k].1 == (if o.cells[k].1 {
            1u8
        } else {
            0u8
        })
}

/// The state of one tick output, as it is written out.
fn tick_state(snapshot: &TickOutput) -> (t: TickStateJson)
    ensures
        tick_state_shows(t, snapshot@),
{
    let entries = snapshot.cells.entries();
    let mut cells: Vec<(String, u8)> = Vec::new();
    let mut k: usize = 0;
    while k < entries.len()
        invariant
            k <= entries@.len(),
            entries@ == snapshot.cells@,
            cells@.len() == k,
            forall|j: int|
                0 <= j < k ==> (#[trigger] cells@[j]).0@ == json_key(entries@[j].0) && cells@[j].1
                    == (if entries@[j].1 {
                    1u8
                } else {
                    0u8
                }),
        decreases entries@.len() - k,
    {
        let (pos, value) = entries[k];
        let bit: u8 = if value {
            1
        } else {
            0
        };
        cells.push((pos_to_json_key(pos), bit));
        k = k + 1;
    }
    TickStateJson { tick: snapshot.tick, cells }
}

/// Runs `circuit` for `ticks` ticks from its first state and returns the
/// output of each tick. (A circuit without cells cannot run a tick.)
pub fn simulate_to_output_json(circuit: Circuit, ticks: u64) -> (out: SimulationOutputJson)
    requires
        ticks > 0 ==> circuit@.cells.len() > 0,
    ensures
        out.ticks@.len() == ticks,
        forall|i: int|
            0 <= i < ticks ==> tick_state_shows(
                #[trigger] out.ticks@[i],
                ticks_view(initial_view(circuit, crate::simulation::engine::FormatView::AllCell), (i + 1) as nat).output,
            ),
{
    let mut simulator = SimulatorSimple::new(circuit);
    proof {
        if ticks > 0 {
            lemma_can_run(simulator.model(), ticks as nat);
        }
    }
    let ghost m0 = simulator.model();
    let snapshots = simulator.run_with_snapshots(ticks);
    assert forall|i: int| 0 <= i < ticks implies (#[trigger] snapshots@[i])@ == ticks_view(
        m0,
        (i + 1) as nat,
    ).output by {
        crate::simulation::engine_simple::lemma_iterate_ticks(m0, (i + 1) as nat);
    }
    let mut results: Vec<TickStateJson> = Vec::new();
    let mut i: usize = 0;
    while i < snapshots.len()
        invariant
            i <= snapshots@.len(),
            snapshots@.len() == ticks,
            results@.len() == i,
            forall|j: int|
                0 <= j < i ==> tick_state_shows(#[trigger] results@[j], snapshots@[j]@),
        decreases snapshots@.len() - i,
    {
        results.push(tick_state(&snapshots[i]));
        i = i + 1;
    }
    SimulationOutputJson { ticks: results }
}

/// A sub-circuit that has been built: the circuit and its interface cells.
struct ResolvedSubCircuit {
    circuit: Rc<Circuit>,
    sub_input: Vec<Pos>,
    sub_output: Vec<Pos>,
}

/// The names of the built sub-circuits, in the order they were built.
spec fn env_names(env: Seq<(String, ResolvedSubCircuit)>) -> Seq<Seq<char>> {
    env.map_values(|e: (String, ResolvedSubCircuit)| e.0@)
}

/// Each built sub-circuit is one of the definitions, with its interface
/// cells, and is the circuit built from it down to its place in the order.
spec fn env_ok(subs: Seq<(String, SubCircuitJson)>, env: Seq<(String, ResolvedSubCircuit)>) -> bool {
    forall|k: int|
        0 <= k < env.len() ==> {
            &&& sub_names(subs).contains(#[trigger] env[k].0@)
            &&& env[k].1.sub_input@ == positions(def_of(subs, env[k].0@).sub_input@)
            &&& env[k].1.sub_output@ == positions(def_of(subs, env[k].0@).sub_output@)
            &&& built_from(subs, env[k].0@, *env[k].1.circuit, (k + 1) as nat)
        }
}

/// Whether the module instance `rm`, made from the entry `m`, is built on the
/// sub-circuit of `env` that `m` names.
spec fn module_on_env(m: ModuleJson, rm: ResolvedModule, env: Seq<(String, ResolvedSubCircuit)>) -> bool {
    exists|e: int|
        0 <= e < env.len() && env[e].0@ == module_sub_name(m)->Some_0 && rm.spec_circuit()
            == *env[e].1.circuit
}

/// The cells a list of coordinate pairs names.
fn positions_of(s: &Vec<[i32; 2]>) -> (v: Vec<Pos>)
    ensures
        v@ == positions(s@),
{
    let mut v: Vec<Pos> = Vec::new();
    let mut k: usize = 0;
    while k < s.len()
        invariant
            k <= s@.len(),
            v@ == positions(s@.subrange(0, k as int)),
        decreases s@.len() - k,
    {
        let a = s[k];
        v.push(Pos::new(a[0], a[1]));
        k = k + 1;
        assert(v@ =~= positions(s@.subrange(0, k as int)));
    }
    assert(s@.subrange(0, s@.len() as int) =~= s@);
    v
}

/// Builds the module instance that `module_json` describes on the built
/// sub-circuits: the named sub-circuit must be built and have as many
/// interface inputs and outputs as the module has ports.
fn resolve_module(
    module_json: &ModuleJson,
    resolved_subs: &Vec<(String, ResolvedSubCircuit)>,
    Ghost(subs): Ghost<Seq<(String, SubCircuitJson)>>,
) -> (r: Result<ResolvedModule, ParseError>)
    requires
        env_ok(subs, resolved_subs@),
    ensures
        match module_result(subs, env_names(resolved_subs@), *module_json) {
            Ok(mv) => r matches Ok(rm) && rm@ == mv && exists|e: int|
                0 <= e < resolved_subs@.len() && resolved_subs@[e].0@ == module_sub_name(
                    *module_json,
                )->Some_0 && rm.spec_circuit() == *resolved_subs@[e].1.circuit,
            Err(ev) => r matches Err(x) && x@ == ev,
        },
{
    if !is_sub_kind(module_json) {
        return Err(ParseError::SubCircuitNotFound(module_json.module_type.clone()));
    }
    let sub_name = match &module_json.sub_circuit {
        Some(name) => name,
        None => {
            proof {
                reveal_strlit("(missing sub_circuit field)");
            }
            assert("(missing sub_circuit field)"@ =~= missing_sub_text());
            return Err(ParseError::SubCircuitNotFound("(missing sub_circuit field)".to_owned()));
        },
    };
    let mut k: usize = 0;
    let mut found = false;
    while k < resolved_subs.len() && !found
        invariant
            k <= resolved_subs@.len(),
            found ==> k < resolved_subs@.len() && env_names(resolved_subs@)[k as int] == sub_name@,
            forall|j: int| 0 <= j < k ==> env_names(resolved_subs@)[j] != sub_name@,
        decreases resolved_subs@.len() - k + (if found {
            0int
        } else {
            1int
        }),
    {
        if text_equals(resolved_subs[k].0.as_str(), sub_name.as_str()) {
            found = true;
        } else {
            k = k + 1;
        }
    }
    if !found {
        return Err(ParseError::SubCircuitNotFound(sub_name.clone()));
    }
    assert(env_names(resolved_subs@)[k as int] == sub_name@);
    let resolved_sub = &resolved_subs[k].1;
    assert(env_ok(subs, resolved_subs@));
    assert(sub_names(subs).contains(resolved_subs@[k as int].0@));
    let input = positions_of(&module_json.input);
    let output = positions_of(&module_json.output);
    if input.len() != resolved_sub.sub_input.len() {
        return Err(
            ParseError::Circuit(
                CircuitError::SubInputCountMismatch {
                    expected: resolved_sub.sub_input.len(),
                    actual: input.len(),
                },
            ),
        );
    }
    if output.len() != resolved_sub.sub_output.len() {
        return Err(
            ParseError::Circuit(
                CircuitError::SubOutputCountMismatch {
                    expected: resolved_sub.sub_output.len(),
                    actual: output.len(),
                },
            ),
        );
    }
    let sub_input = resolved_sub.sub_input.clone();
    let sub_output = resolved_sub.sub_output.clone();
    assert(sub_input@ =~= resolved_sub.sub_input@);
    assert(sub_output@ =~= resolved_sub.sub_output@);
    Ok(ResolvedModule::with_shared(&resolved_sub.circuit, input, output, sub_input, sub_output))
}

/// Builds the circuit of a sub-circuit definition whose interface cells are
/// `sub_input` and `sub_output`, on the sub-circuits built so far.
#[verifier::loop_isolation(false)]
fn build_sub_circuit(
    sub_def: &SubCircuitJson,
    sub_input: &[Pos],
    sub_output: &[Pos],
    resolved_subs: &Vec<(String, ResolvedSubCircuit)>,
    Ghost(subs): Ghost<Seq<(String, SubCircuitJson)>>,
) -> (r: Result<Circuit, ParseError>)
    requires
        env_ok(subs, resolved_subs@),
        sub_input@ == positions(sub_def.sub_input@),
        sub_output@ == positions(sub_def.sub_output@),
    ensures
        match sub_result(subs, env_names(resolved_subs@), *sub_def) {
            Err(ev) => r matches Err(x) && x@ == ev,
            Ok(p) => r matches Ok(c) && level_built(p, c) && forall|j: int|
                0 <= j < c.spec_modules().len() ==> #[trigger] module_on_env(
                    sub_def.modules@[j],
                    c.spec_modules()[j],
                    resolved_subs@,
                ),
        },
{
    let ghost avail = env_names(resolved_subs@);
    let mut cells = PosSet::new();
    let mut wires: Vec<Wire> = Vec::new();
    let mut k: usize = 0;
    while k < sub_def.wires.len()
        invariant
            k <= sub_def.wires@.len(),
            wires_of(sub_def.wires@, k as nat) == Ok::<Seq<Wire>, FormatErrorView>(wires@),
            sorted_strict(cells@),
            cells@.to_set() == endpoints(wires@).to_set(),
        decreases sub_def.wires@.len() - k,
    {
        let wire_json = &sub_def.wires[k];
        let src = Pos::new(wire_json.src[0], wire_json.src[1]);
        let dst = Pos::new(wire_json.dst[0], wire_json.dst[1]);
        let kind = match parse_wire_kind(wire_json.kind.as_str()) {
            Ok(kind) => kind,
            Err(e) => {
                proof {
                    lemma_wires_of_err(sub_def.wires@, (k + 1) as nat, sub_def.wires@.len());
                }
                return Err(ParseError::Format(e));
            },
        };
        let ghost before = wires@;
        cells.insert(src);
        cells.insert(dst);
        wires.push(Wire::new(src, dst, kind));
        proof {
            assert(wires@.drop_last() =~= before);
            lemma_push_to_set(endpoints(before), src);
            lemma_push_to_set(endpoints(before).push(src), dst);
        }
        k = k + 1;
    }
    let ghost ws = wires@;
    proof {
        lemma_concat_to_set(endpoints(ws), sub_input@);
        lemma_concat_to_set(endpoints(ws) + sub_input@, sub_output@);
    }
    add_ports(&mut cells, sub_input);
    add_ports(&mut cells, sub_output);
    assert(cells@.to_set() =~= (endpoints(ws) + sub_input@ + sub_output@).to_set());
    if let Some(pos) = first_with_incoming(sub_input, wires.as_slice()) {
        return Err(ParseError::Circuit(CircuitError::SubInputHasIncomingWires(pos)));
    }
    if Circuit::validate_port_column(sub_input).is_err() {
        return Err(ParseError::Circuit(CircuitError::InvalidPortColumn));
    }
    if Circuit::validate_port_column(sub_output).is_err() {
        return Err(ParseError::Circuit(CircuitError::InvalidPortColumn));
    }
    if sub_input.len() > 0 && sub_output.len() > 0 && sub_output[0].x <= sub_input[0].x {
        return Err(ParseError::Circuit(CircuitError::SubOutputBeforeSubInput));
    }
    let mut modules: Vec<ResolvedModule> = Vec::new();
    let mut j: usize = 0;
    assert(module_views(modules@) =~= Seq::empty());
    while j < sub_def.modules.len()
        invariant
            j <= sub_def.modules@.len(),
            env_ok(subs, resolved_subs@),
            avail == env_names(resolved_subs@),
            modules_result(subs, avail, sub_def.modules@, j as nat) == Ok::<
                Seq<crate::circuit::module::ModuleView>,
                ParseErrorView,
            >(module_views(modules@)),
            modules@.len() == j,
            forall|l: int|
                0 <= l < j ==> #[trigger] module_on_env(sub_def.modules@[l], modules@[l], resolved_subs@),
        decreases sub_def.modules@.len() - j,
    {
        let ghost before = modules@;
        match resolve_module(&sub_def.modules[j], resolved_subs, Ghost(subs)) {
            Ok(m) => {
                assert(module_result(subs, avail, sub_def.modules@[j as int]) is Ok);
                assert(module_on_env(sub_def.modules@[j as int], m, resolved_subs@));
                modules.push(m);
                assert(module_views(modules@) =~= module_views(before).push(m@));
                assert forall|l: int| 0 <= l < j + 1 implies #[trigger] module_on_env(
                    sub_def.modules@[l],
                    modules@[l],
                    resolved_subs@,
                ) by {
                    if l < j {
                        assert(modules@[l] == before[l]);
                    } else {
                        assert(modules@[l] == m);
                    }
                }
            },
            Err(e) => {
                assert(module_result(subs, avail, sub_def.modules@[j as int]) is Err);
                assert(modules_result(subs, avail, sub_def.modules@, (j + 1) as nat) == Err::<
                    Seq<crate::circuit::module::ModuleView>,
                    ParseErrorView,
                >(e@));
                proof {
                    lemma_modules_result_err(
                        subs,
                        avail,
                        sub_def.modules@,
                        (j + 1) as nat,
                        sub_def.modules@.len(),
                    );
                }
                assert(sub_result(subs, avail, *sub_def) == Err::<crate::parser::model::SubParts, ParseErrorView>(e@));
                return Err(e);
            },
        }
        j = j + 1;
    }
    let ghost raw = endpoints(ws) + sub_input@ + sub_output@;
    let ghost mvs = module_views(modules@);
    let ghost mods = modules@;
    assert(modules_result(subs, avail, sub_def.modules@, sub_def.modules@.len()) == Ok::<
        Seq<crate::circuit::module::ModuleView>,
        ParseErrorView,
    >(mvs));
    proof {
        lemma_components_error_cells(cells@, raw, ws, Seq::empty(), Seq::empty());
        assert(input_views(Seq::<crate::circuit::Input>::empty()) =~= Seq::empty());
        assert(output_views(Seq::<crate::circuit::Output>::empty()) =~= Seq::empty());
    }
    let built = if modules.len() == 0 {
        Circuit::with_components(cells, wires, Vec::new(), Vec::new())
    } else {
        Circuit::with_modules(cells, wires, Vec::new(), Vec::new(), modules)
    };
    match built {
        Ok(c) => {
            proof {
                assert(crate::circuit::circuit::component_cells(raw, Seq::empty(), Seq::empty()) =~= raw.to_set());
                assert(crate::circuit::circuit::module_cells(Seq::<crate::circuit::module::ModuleView>::empty()) =~= Set::<Pos>::empty());
                assert(raw.to_set().union(Set::<Pos>::empty()) =~= raw.to_set());
                assert(module_views(c.spec_modules()) =~= mvs);
                assert forall|j2: int| 0 <= j2 < c.spec_modules().len() implies #[trigger] module_on_env(
                    sub_def.modules@[j2],
                    c.spec_modules()[j2],
                    resolved_subs@,
                ) by {
                    assert(c.spec_modules()[j2] == mods[j2]);
                }
                assert(level_built(sub_result(subs, avail, *sub_def)->Ok_0, c));
            }
            Ok(c)
        },
        Err(e) => Err(ParseError::Circuit(e)),
    }
}

/// The place of the definition named `name`.
fn find_def(subs: &Vec<(String, SubCircuitJson)>, name: &str) -> (i: usize)
    requires
        sub_names(subs@).contains(name@),
    ensures
        i < subs@.len(),
        subs@[i as int].0@ == name@,
{
    let mut i: usize = 0;
    while i < subs.len()
        invariant
            i <= subs@.len(),
            sub_names(subs@).contains(name@),
            forall|j: int| 0 <= j < i ==> sub_names(subs@)[j] != name@,
        decreases subs@.len() - i,
    {
        if text_equals(subs[i].0.as_str(), name) {
            return i;
        }
        i = i + 1;
    }
    proof {
        let j = choose|j: int| 0 <= j < subs@.len() && sub_names(subs@)[j] == name@;
        assert(sub_names(subs@)[j] != name@);
    }
    0
}

/// Builds every sub-circuit definition, in the build order, each on those
/// built before it; the first failure is the error.
#[verifier::rlimit(60)]
#[verifier::spinoff_prover]
fn resolve_sub_circuits(subs: &Vec<(String, SubCircuitJson)>) -> (r: Result<
    Vec<(String, ResolvedSubCircuit)>,
    ParseError,
>)
    requires
        names_distinct(subs@),
    ensures
        exists|o: Seq<Seq<char>>|
            #[trigger] is_build_order(subs@, o) && match r {
                Ok(env) => {
                    &&& subs_error(subs@, o) is None
                    &&& env_names(env@) == o
                    &&& env_ok(subs@, env@)
                },
                Err(e) => subs_error(subs@, o) == Some(e@),
            },
{
    if subs.len() == 0 {
        let env: Vec<(String, ResolvedSubCircuit)> = Vec::new();
        assert(is_build_order(subs@, Seq::empty()));
        assert(unplaced_upto(subs@, Seq::empty(), 0) =~= Seq::<Seq<char>>::empty());
        assert(env_names(env@) =~= Seq::empty());
        return Ok(env);
    }
    let order = match topological_sort(subs) {
        Ok(order) => order,
        Err(e) => {
            return Err(e);
        },
    };
    let ghost o = texts(order@);
    proof {
        lemma_build_order_len(subs@, o);
    }
    let mut resolved: Vec<(String, ResolvedSubCircuit)> = Vec::new();
    let mut k: usize = 0;
    assert(env_names(resolved@) =~= o.subrange(0, 0));
    while k < order.len()
        invariant
            o == texts(order@),
            o.len() <= subs@.len(),
            names_distinct(subs@),
            is_build_order(subs@, o),
            unplaced_upto(subs@, o, subs@.len()).len() == 0,
            k <= o.len(),
            env_names(resolved@) == o.subrange(0, k as int),
            env_ok(subs@, resolved@),
            first_some(k as nat, sub_checks(subs@, o)) is None,
        decreases o.len() - k,
    {
        proof {
            lemma_build_order_deps(subs@, o, k as int);
        }
        let name = &order[k];
        assert(o[k as int] == name@);
        let i = find_def(subs, name.as_str());
        let sub_def = &subs[i].1;
        proof {
            let di = crate::parser::model::def_index(subs@, name@);
            assert(subs@[i as int].0@ == name@);
            assert(0 <= di < subs@.len() && subs@[di].0@ == name@);
            if di != i {
                assert(subs@[di].0@ != subs@[i as int].0@);
            }
        }
        assert(def_of(subs@, o[k as int]) == *sub_def);
        let sub_input = positions_of(&sub_def.sub_input);
        let sub_output = positions_of(&sub_def.sub_output);
        let circuit = match build_sub_circuit(
            sub_def,
            sub_input.as_slice(),
            sub_output.as_slice(),
            &resolved,
            Ghost(subs@),
        ) {
            Ok(c) => c,
            Err(e) => {
                proof {
                    assert(sub_checks(subs@, o)(k as int) == Some(e@));
                    lemma_first_some_at(sub_checks(subs@, o), k as nat, o.len());
                }
                return Err(e);
            },
        };
        let ghost d = *sub_def;
        let ghost avail = o.subrange(0, k as int);
        proof {
            assert(sub_checks(subs@, o)(k as int) is None);
            assert(sub_result(subs@, avail, d) is Ok);
            assert forall|x: Seq<char>| avail.contains(x) implies sub_names(subs@).contains(x) by {
                let w = choose|w: int| 0 <= w < avail.len() && avail[w] == x;
                lemma_build_order_deps(subs@, o, w);
            }
            lemma_sub_result_more(subs@, avail, sub_names(subs@), d);
            assert forall|j: int| 0 <= j < circuit.spec_modules().len() implies built_from(
                subs@,
                module_sub_name(d.modules@[j])->Some_0,
                #[trigger] circuit.spec_modules()[j].spec_circuit(),
                k as nat,
            ) by {
                assert(module_on_env(d.modules@[j], circuit.spec_modules()[j], resolved@));
                let e = choose|e: int|
                    0 <= e < resolved@.len() && resolved@[e].0@ == module_sub_name(d.modules@[j])->Some_0
                        && circuit.spec_modules()[j].spec_circuit() == *resolved@[e].1.circuit;
                assert(env_names(resolved@)[e] == resolved@[e].0@);
                lemma_built_from_deeper(
                    subs@,
                    resolved@[e].0@,
                    *resolved@[e].1.circuit,
                    (e + 1) as nat,
                    k as nat,
                );
            }
            assert(built_from(subs@, name@, circuit, (k + 1) as nat));
        }
        let ghost before = resolved@;
        let entry = ResolvedSubCircuit { circuit: Rc::new(circuit), sub_input, sub_output };
        resolved.push((name.clone(), entry));
        proof {
            assert(env_names(resolved@) =~= o.subrange(0, k + 1));
            assert forall|m: int| 0 <= m < resolved@.len() implies {
                &&& sub_names(subs@).contains(#[trigger] resolved@[m].0@)
                &&& resolved@[m].1.sub_input@ == positions(def_of(subs@, resolved@[m].0@).sub_input@)
                &&& resolved@[m].1.sub_output@ == positions(def_of(subs@, resolved@[m].0@).sub_output@)
                &&& built_from(subs@, resolved@[m].0@, *resolved@[m].1.circuit, (m + 1) as nat)
            } by {
                if m < k {
                    assert(resolved@[m] == before[m]);
                }
            }
            assert(first_some((k + 1) as nat, sub_checks(subs@, o)) is None);
        }
        k = k + 1;
    }
    assert(o.subrange(0, o.len() as int) =~= o);
    Ok(resolved)
}

impl Circuit {
    /// Reads a circuit description: the sub-circuits are built first, in the
    /// build order; then the wires, the input components, the output
    /// components and the modules are read, in that order, and the circuit
    /// is built from them. The first failure is the error. The older
    /// `generators` and `testers` lists are not used.
    #[verifier::loop_isolation(false)]
    #[verifier::rlimit(60)]
    #[verifier::spinoff_prover]
    pub fn try_from(value: CircuitJson) -> (r: Result<Circuit, ParseError>)
        requires
            names_distinct(value.subs@),
        ensures
            exists|o: Seq<Seq<char>>|
                #[trigger] is_build_order(value.subs@, o) && match r {
                    Ok(c) => {
                        &&& json_result(value, o) is Ok
                        &&& c@.cells.to_set() == component_cells(
                            json_result(value, o)->Ok_0.cells,
                            json_result(value, o)->Ok_0.inputs,
                            json_result(value, o)->Ok_0.outputs,
                        ).union(module_cells(json_result(value, o)->Ok_0.modules))
                        &&& c@.wires == json_result(value, o)->Ok_0.wires
                        &&& c@.inputs == json_result(value, o)->Ok_0.inputs
                        &&& c@.outputs == json_result(value, o)->Ok_0.outputs
                        &&& module_views(c.spec_modules()) == json_result(value, o)->Ok_0.modules
                        &&& forall|j: int|
                            0 <= j < c.spec_modules().len() ==> built_from(
                                value.subs@,
                                module_sub_name(value.modules@[j])->Some_0,
                                #[trigger] c.spec_modules()[j].spec_circuit(),
                                value.subs@.len(),
                            )
                    },
                    Err(e) => json_result(value, o) == Err::<crate::parser::model::TopParts, ParseErrorView>(e@),
                },
    {
        let resolved_subs = match resolve_sub_circuits(&value.subs) {
            Ok(env) => env,
            Err(e) => {
                return Err(e);
            },
        };
        let ghost o = env_names(resolved_subs@);
        assert(is_build_order(value.subs@, o));
        proof {
            lemma_build_order_len(value.subs@, o);
        }
        let mut builder = CircuitBuilder::new();
        assert(builder@.wires =~= Seq::<Wire>::empty());
        assert(endpoints(builder@.wires) =~= Seq::<Pos>::empty());
        assert(builder@.cells.to_set() =~= Set::<Pos>::empty());
        let mut k: usize = 0;
        while k < value.wires.len()
            invariant
                k <= value.wires@.len(),
                wires_of(value.wires@, k as nat) == Ok::<Seq<Wire>, FormatErrorView>(builder@.wires),
                sorted_strict(builder@.cells),
                builder@.cells.to_set() == endpoints(builder@.wires).to_set(),
                builder@.inputs.len() == 0,
                builder@.outputs.len() == 0,
                builder@.modules.len() == 0,
            decreases value.wires@.len() - k,
        {
            let wire = &value.wires[k];
            let src = Pos::new(wire.src[0], wire.src[1]);
            let dst = Pos::new(wire.dst[0], wire.dst[1]);
            let kind = match parse_wire_kind(wire.kind.as_str()) {
                Ok(kind) => kind,
                Err(e) => {
                    proof {
                        lemma_wires_of_err(value.wires@, (k + 1) as nat, value.wires@.len());
                    }
                    return Err(ParseError::Format(e));
                },
            };
            let ghost before = builder@.wires;
            builder.add_wire(src, dst, kind);
            proof {
                assert(builder@.wires.drop_last() =~= before);
                lemma_push_to_set(endpoints(before), src);
                lemma_push_to_set(endpoints(before).push(src), dst);
            }
            k = k + 1;
        }
        let ghost ws = builder@.wires;
        let ghost cells = builder@.cells;
        let mut k: usize = 0;
        assert(input_views(builder@.inputs) =~= Seq::empty());
        while k < value.input.len()
            invariant
                k <= value.input@.len(),
                inputs_of(value.input@, k as nat) == Ok::<Seq<crate::circuit::component::InputView>, FormatErrorView>(
                    input_views(builder@.inputs),
                ),
                builder@.wires == ws,
                builder@.cells == cells,
                builder@.outputs.len() == 0,
                builder@.modules.len() == 0,
            decreases value.input@.len() - k,
        {
            match &value.input[k] {
                InputJson::Generator { target, pattern, is_loop } => {
                    let target = Pos::new(target[0], target[1]);
                    let pattern = match parse_pattern(pattern.as_str()) {
                        Ok(p) => p,
                        Err(e) => {
                            proof {
                                lemma_inputs_of_err(value.input@, (k + 1) as nat, value.input@.len());
                            }
                            return Err(ParseError::Format(e));
                        },
                    };
                    let ghost before = builder@.inputs;
                    let input = Input::Generator(Generator::new(target, pattern, *is_loop));
                    builder.add_input(input);
                    assert(input_views(builder@.inputs) =~= input_views(before).push(input@));
                },
            }
            k = k + 1;
        }
        let ghost ins = input_views(builder@.inputs);
        let mut k: usize = 0;
        assert(output_views(builder@.outputs) =~= Seq::empty());
        while k < value.output.len()
            invariant
                k <= value.output@.len(),
                outputs_of(value.output@, k as nat) == Ok::<Seq<crate::circuit::component::OutputView>, FormatErrorView>(
                    output_views(builder@.outputs),
                ),
                builder@.wires == ws,
                builder@.cells == cells,
                input_views(builder@.inputs) == ins,
                builder@.modules.len() == 0,
            decreases value.output@.len() - k,
        {
            match &value.output[k] {
                OutputJson::Tester { target, expected, is_loop } => {
                    let target = Pos::new(target[0], target[1]);
                    let expected = match parse_expected_pattern(expected.as_str()) {
                        Ok(x) => x,
                        Err(e) => {
                            proof {
                                lemma_outputs_of_err(value.output@, (k + 1) as nat, value.output@.len());
                            }
                            return Err(ParseError::Format(e));
                        },
                    };
                    let ghost before = builder@.outputs;
                    let output = Output::Tester(Tester::new(target, expected, *is_loop));
                    builder.add_output(output);
                    assert(output_views(builder@.outputs) =~= output_views(before).push(output@));
                },
            }
            k = k + 1;
        }
        let ghost outs = output_views(builder@.outputs);
        let mut k: usize = 0;
        assert(module_views(builder@.modules) =~= Seq::empty());
        while k < value.modules.len()
            invariant
                k <= value.modules@.len(),
                o == env_names(resolved_subs@),
                env_ok(value.subs@, resolved_subs@),
                modules_result(value.subs@, o, value.modules@, k as nat) == Ok::<
                    Seq<crate::circuit::module::ModuleView>,
                    ParseErrorView,
                >(module_views(builder@.modules)),
                builder@.modules.len() == k,
                forall|l: int|
                    0 <= l < k ==> #[trigger] module_on_env(
                        value.modules@[l],
                        builder@.modules[l],
                        resolved_subs@,
                    ),
                builder@.wires == ws,
                builder@.cells == cells,
                input_views(builder@.inputs) == ins,
                output_views(builder@.outputs) == outs,
            decreases value.modules@.len() - k,
        {
            let ghost before = builder@.modules;
            match resolve_module(&value.modules[k], &resolved_subs, Ghost(value.subs@)) {
                Ok(m) => {
                    assert(module_result(value.subs@, o, value.modules@[k as int]) is Ok);
                    assert(module_on_env(value.modules@[k as int], m, resolved_subs@));
                    builder.add_module(m);
                    assert(module_views(builder@.modules) =~= module_views(before).push(m@));
                    assert forall|l: int| 0 <= l < k + 1 implies #[trigger] module_on_env(
                        value.modules@[l],
                        builder@.modules[l],
                        resolved_subs@,
                    ) by {
                        if l < k {
                            assert(builder@.modules[l] == before[l]);
                        }
                    }
                },
                Err(e) => {
                    assert(module_result(value.subs@, o, value.modules@[k as int]) is Err);
                    proof {
                        lemma_modules_result_err(
                            value.subs@,
                            o,
                            value.modules@,
                            (k + 1) as nat,
                            value.modules@.len(),
                        );
                    }
                    return Err(e);
                },
            }
            k = k + 1;
        }
        let ghost mods = builder@.modules;
        proof {
            lemma_components_error_cells(cells, endpoints(ws), ws, ins, outs);
        }
        match builder.build() {
            Ok(c) => {
                proof {
                    assert forall|j: int| 0 <= j < c.spec_modules().len() implies built_from(
                        value.subs@,
                        module_sub_name(value.modules@[j])->Some_0,
                        #[trigger] c.spec_modules()[j].spec_circuit(),
                        value.subs@.len(),
                    ) by {
                        assert(c.spec_modules()[j] == mods[j]);
                        assert(module_on_env(value.modules@[j], mods[j], resolved_subs@));
                        let e = choose|e: int|
                            0 <= e < resolved_subs@.len() && resolved_subs@[e].0@ == module_sub_name(
                                value.modules@[j],
                            )->Some_0 && mods[j].spec_circuit() == *resolved_subs@[e].1.circuit;
                        lemma_built_from_deeper(
                            value.subs@,
                            resolved_subs@[e].0@,
                            *resolved_subs@[e].1.circuit,
                            (e + 1) as nat,
                            value.subs@.len(),
                        );
                    }
                }
                Ok(c)
            },
            Err(e) => Err(ParseError::Circuit(e)),
        }
    }
}

/// The texts of a list of strings.
pub open spec fn texts(s: Seq<String>) -> Seq<Seq<char>> {
    s.map_values(|x: String| x@)
}

/// The number of `false` entries.
pub open spec fn count_false(s: Seq<bool>) -> nat
    decreases s.len(),
{
    if s.len() == 0 {
        0
    } else {
        count_false(s.drop_last()) + (if s.last() {
            0nat
        } else {
            1nat
        })
    }
}

/// Turning a `false` entry to `true` leaves one `false` fewer.
proof fn lemma_count_false_update(s: Seq<bool>, i: int)
    requires
        0 <= i < s.len(),
        !s[i],
    ensures
        count_false(s.update(i, true)) + 1 == count_false(s),
    decreases s.len(),
{
    let t = s.update(i, true);
    if i < s.len() - 1 {
        assert(t.drop_last() =~= s.drop_last().update(i, true));
        lemma_count_false_update(s.drop_last(), i);
    } else {
        assert(t.drop_last() =~= s.drop_last());
    }
}

/// Whether `name` is among `order`.
fn name_placed(order: &Vec<String>, name: &str) -> (b: bool)
    ensures
        b == texts(order@).contains(name@),
{
    let mut k: usize = 0;
    while k < order.len()
        invariant
            k <= order@.len(),
            forall|j: int| 0 <= j < k ==> texts(order@)[j] != name@,
        decreases order@.len() - k,
    {
        if text_equals(order[k].as_str(), name) {
            assert(texts(order@)[k as int] == name@);
            return true;
        }
        k = k + 1;
    }
    false
}

/// Whether the module entry is of kind `sub`.
fn is_sub_kind(m: &ModuleJson) -> (b: bool)
    ensures
        b == (m.module_type@ == word_sub()),
{
    proof {
        reveal_strlit("sub");
    }
    assert("sub"@ =~= word_sub());
    text_equals(m.module_type.as_str(), "sub")
}

/// Whether every sub-circuit that `d` names is among `order`.
fn deps_all_placed(d: &SubCircuitJson, order: &Vec<String>) -> (b: bool)
    ensures
        b == deps_placed(*d, texts(order@)),
{
    let mut j: usize = 0;
    while j < d.modules.len()
        invariant
            j <= d.modules@.len(),
            forall|l: int|
                0 <= l < j ==> match module_sub_name(#[trigger] d.modules@[l]) {
                    Some(n) => texts(order@).contains(n),
                    None => true,
                },
        decreases d.modules@.len() - j,
    {
        let m = &d.modules[j];
        if is_sub_kind(m) {
            if let Some(name) = &m.sub_circuit {
                if !name_placed(order, name.as_str()) {
                    return false;
                }
            }
        }
        j = j + 1;
    }
    true
}

/// Orders the sub-circuit definitions so that each comes after those it
/// names: repeatedly the greatest name (in text order) whose dependencies are
/// all placed. When some cannot be placed (a cycle, or a name that is not
/// defined), the error lists them, joined with `, `.
fn topological_sort(subs: &Vec<(String, SubCircuitJson)>) -> (r: Result<Vec<String>, ParseError>)
    requires
        names_distinct(subs@),
    ensures
        match r {
            Ok(order) => {
                &&& is_build_order(subs@, texts(order@))
                &&& unplaced_upto(subs@, texts(order@), subs@.len()).len() == 0
            },
            Err(e) => exists|o: Seq<Seq<char>>|
                {
                    &&& is_build_order(subs@, o)
                    &&& unplaced_upto(subs@, o, subs@.len()).len() > 0
                    &&& e@ == ParseErrorView::CircularDependency(
                        joined(unplaced_upto(subs@, o, subs@.len())),
                    )
                },
        },
{
    let n = subs.len();
    let mut placed: Vec<bool> = Vec::new();
    while placed.len() < n
        invariant
            placed@.len() <= n,
            n == subs@.len(),
            forall|i: int| 0 <= i < placed@.len() ==> !#[trigger] placed@[i],
        decreases n - placed@.len(),
    {
        placed.push(false);
    }
    let mut order: Vec<String> = Vec::new();
    loop
        invariant
            n == subs@.len(),
            names_distinct(subs@),
            placed@.len() == n,
            forall|i: int|
                0 <= i < n ==> #[trigger] placed@[i] == texts(order@).contains(subs@[i].0@),
            forall|k: int| 0 <= k < order@.len() ==> #[trigger] greatest_ready_at(subs@, texts(order@), k),
        ensures
            forall|j: int| !#[trigger] is_ready(subs@, texts(order@), j),
        decreases count_false(placed@),
    {
        let ghost done = texts(order@);
        let mut best: Option<usize> = None;
        let mut i: usize = 0;
        while i < n
            invariant
                n == subs@.len(),
                i <= n,
                done == texts(order@),
                names_distinct(subs@),
                match best {
                    None => forall|j: int| 0 <= j < i ==> !#[trigger] is_ready(subs@, done, j),
                    Some(b) => {
                        &&& b < i
                        &&& is_ready(subs@, done, b as int)
                        &&& forall|j: int|
                            0 <= j < i && #[trigger] is_ready(subs@, done, j) ==> !text_lt(
                                subs@[b as int].0@,
                                subs@[j].0@,
                            )
                    },
                },
            decreases n - i,
        {
            let name = subs[i].0.as_str();
            if !name_placed(&order, name) && deps_all_placed(&subs[i].1, &order) {
                assert(is_ready(subs@, done, i as int));
                match best {
                    None => {
                        best = Some(i);
                        proof {
                            lemma_text_order(subs@[i as int].0@, subs@[i as int].0@, subs@[i as int].0@);
                        }
                    },
                    Some(b) => {
                        if text_less(subs[b].0.as_str(), name) {
                            proof {
                                assert forall|j: int|
                                    0 <= j < i + 1 && #[trigger] is_ready(subs@, done, j) implies !text_lt(
                                    subs@[i as int].0@,
                                    subs@[j].0@,
                                ) by {
                                    lemma_text_order(
                                        subs@[b as int].0@,
                                        subs@[i as int].0@,
                                        subs@[j].0@,
                                    );
                                    lemma_text_order(
                                        subs@[i as int].0@,
                                        subs@[i as int].0@,
                                        subs@[i as int].0@,
                                    );
                                }
                            }
                            best = Some(i);
                        }
                    },
                }
            }
            i = i + 1;
        }
        match best {
            None => {
                assert forall|j: int| !#[trigger] is_ready(subs@, texts(order@), j) by {
                    if 0 <= j < n {
                        assert(!is_ready(subs@, done, j));
                    }
                }
                break;
            },
            Some(b) => {
                let ghost before = order@;
                let ghost k = order@.len() as int;
                proof {
                    lemma_count_false_update(placed@, b as int);
                }
                let name = subs[b].0.clone();
                order.push(name);
                placed.set(b, true);
                assert(texts(order@) =~= done.push(subs@[b as int].0@));
                assert(texts(order@).subrange(0, k) =~= done);
                assert forall|k2: int| 0 <= k2 < order@.len() implies #[trigger] greatest_ready_at(
                    subs@,
                    texts(order@),
                    k2,
                ) by {
                    if k2 < k {
                        assert(greatest_ready_at(subs@, done, k2));
                        assert(texts(order@).subrange(0, k2) =~= done.subrange(0, k2));
                        assert(texts(order@)[k2] == done[k2]);
                    } else {
                        assert(is_ready(subs@, texts(order@).subrange(0, k), b as int));
                    }
                }
                assert forall|i2: int| 0 <= i2 < n implies #[trigger] placed@[i2] == texts(
                    order@,
                ).contains(subs@[i2].0@) by {
                    if i2 == b {
                        assert(texts(order@)[k] == subs@[i2].0@);
                    } else {
                        assert(subs@[i2].0@ != subs@[b as int].0@);
                        if done.contains(subs@[i2].0@) {
                            let w = choose|w: int| 0 <= w < done.len() && done[w] == subs@[i2].0@;
                            assert(texts(order@)[w] == subs@[i2].0@);
                        }
                    }
                }
            },
        }
    }
    // Those left unplaced, joined with `, `.
    let ghost o = texts(order@);
    assert(is_build_order(subs@, o));
    let mut remaining = empty_string();
    let mut any = false;
    let mut i: usize = 0;
    while i < n
        invariant
            n == subs@.len(),
            i <= n,
            o == texts(order@),
            is_build_order(subs@, o),
            placed@.len() == n,
            forall|j: int| 0 <= j < n ==> #[trigger] placed@[j] == o.contains(subs@[j].0@),
            any == (unplaced_upto(subs@, o, i as nat).len() > 0),
            remaining@ == joined(unplaced_upto(subs@, o, i as nat)),
        decreases n - i,
    {
        if !placed[i] {
            let ghost before = unplaced_upto(subs@, o, i as nat);
            if any {
                remaining.append(", ");
                proof {
                    reveal_strlit(", ");
                }
            }
            remaining.append(subs[i].0.as_str());
            any = true;
            proof {
                let after = before.push(subs@[i as int].0@);
                assert(after.drop_last() =~= before);
                if before.len() > 0 {
                    assert(", "@ =~= seq![',', ' ']);
                }
            }
        }
        i = i + 1;
    }
    if any {
        Err(ParseError::CircularDependency(remaining))
    } else {
        Ok(order)
    }
}

} // verus!
