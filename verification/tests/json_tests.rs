use lgcell2_core::base::{CircuitError, FormatError, ParseError};
use lgcell2_core::circuit::{Circuit, Input, Pos};
use lgcell2_core::parser::json::{
    parse_expected_pattern, parse_pattern, parse_wire_kind, simulate_to_output_json, CircuitJson,
    GeneratorJson, InputJson, ModuleJson, SubCircuitJson, TesterJson, WireJson,
};
use lgcell2_core::simulation::{Simulator, SimulatorSimple};

fn output_cell(sim: &SimulatorSimple, pos: Pos) -> Option<bool> {
    sim.last_output().cells.get(&pos).copied()
}

fn wire(src: [i32; 2], dst: [i32; 2], kind: &str) -> WireJson {
    WireJson { src, dst, kind: kind.to_string() }
}

fn circuit_json(wires: Vec<WireJson>) -> CircuitJson {
    CircuitJson {
        wires,
        input: Vec::new(),
        output: Vec::new(),
        generators: Vec::new(),
        testers: Vec::new(),
        modules: Vec::new(),
        subs: Vec::new(),
    }
}

fn module(sub_circuit: &str, input: Vec<[i32; 2]>, output: Vec<[i32; 2]>) -> ModuleJson {
    ModuleJson {
        module_type: "sub".to_string(),
        sub_circuit: Some(sub_circuit.to_string()),
        input,
        output,
    }
}

fn sub(
    wires: Vec<WireJson>,
    sub_input: Vec<[i32; 2]>,
    sub_output: Vec<[i32; 2]>,
    modules: Vec<ModuleJson>,
) -> SubCircuitJson {
    SubCircuitJson { wires, sub_input, sub_output, modules }
}

fn half_adder_wires() -> Vec<WireJson> {
    vec![
        wire([0, 0], [1, 0], "positive"),
        wire([0, 1], [1, 0], "positive"),
        wire([0, 0], [1, 1], "negative"),
        wire([0, 1], [1, 1], "negative"),
        wire([1, 0], [2, 0], "negative"),
        wire([1, 1], [2, 0], "negative"),
        wire([2, 0], [3, 0], "negative"),
        wire([0, 0], [2, 1], "negative"),
        wire([0, 1], [2, 1], "negative"),
        wire([2, 1], [3, 1], "negative"),
    ]
}

#[test]
fn json_tests_parse_valid_json_to_circuit() {
    let input = circuit_json(vec![wire([0, 0], [1, 0], "negative")]);

    let circuit = Circuit::try_from(input).expect("json must parse");
    let mut sim = SimulatorSimple::new(circuit);
    sim.tick();

    // (0,0) starts false; a negative wire inverts it.
    assert_eq!(output_cell(&sim, Pos::new(1, 0)), Some(true));
}

#[test]
fn json_tests_parse_rejects_invalid_kind() {
    let input = circuit_json(vec![wire([0, 0], [1, 0], "unknown")]);

    let err = Circuit::try_from(input).expect_err("must reject unknown kind");
    assert!(
        matches!(err, ParseError::Format(FormatError::InvalidWireKind(ref kind)) if kind == "unknown")
    );
}

#[test]
fn json_tests_parse_rejects_self_loop() {
    let input = circuit_json(vec![wire([0, 0], [0, 0], "positive")]);

    let err = Circuit::try_from(input).expect_err("must reject self-loop");
    assert!(matches!(
        err,
        ParseError::Circuit(CircuitError::SelfLoop {
            src: Pos { x: 0, y: 0 },
            dst: Pos { x: 0, y: 0 }
        })
    ));
}

#[test]
fn json_tests_parse_rejects_duplicate_wires() {
    let input = circuit_json(vec![
        wire([0, 0], [1, 0], "positive"),
        wire([0, 0], [1, 0], "negative"),
    ]);

    let err = Circuit::try_from(input).expect_err("must reject duplicate wires");
    assert!(matches!(
        err,
        ParseError::Circuit(CircuitError::DuplicateWire {
            src: Pos { x: 0, y: 0 },
            dst: Pos { x: 1, y: 0 }
        })
    ));
}

#[test]
fn json_tests_cells_are_inferred_from_wire_endpoints() {
    let input = circuit_json(vec![
        wire([0, 0], [1, 0], "positive"),
        wire([1, 0], [2, 0], "negative"),
    ]);

    let circuit = Circuit::try_from(input).expect("json must parse");
    assert_eq!(circuit.cells().len(), 3);
    assert!(circuit.cells().contains(&Pos::new(0, 0)));
    assert!(circuit.cells().contains(&Pos::new(1, 0)));
    assert!(circuit.cells().contains(&Pos::new(2, 0)));
}

#[test]
fn json_tests_parse_generators_and_apply_default_loop_false() {
    let mut input = circuit_json(vec![wire([0, 0], [1, 0], "positive")]);
    input.input = vec![InputJson::Generator {
        target: [0, 0],
        pattern: "10".to_string(),
        is_loop: false,
    }];

    let circuit = Circuit::try_from(input).expect("json must parse");
    assert_eq!(circuit.inputs().len(), 1);
    match &circuit.inputs()[0] {
        Input::Generator(generator) => {
            assert_eq!(generator.target(), Pos::new(0, 0));
            assert_eq!(generator.pattern(), &[true, false]);
            assert!(!generator.is_loop());
        }
    }
}

#[test]
fn json_tests_parse_rejects_invalid_generator_pattern_char() {
    let mut input = circuit_json(vec![wire([0, 0], [1, 0], "positive")]);
    input.input = vec![InputJson::Generator {
        target: [0, 0],
        pattern: "10x".to_string(),
        is_loop: false,
    }];

    let err = Circuit::try_from(input).expect_err("must reject invalid pattern character");
    assert!(matches!(err, ParseError::Format(FormatError::InvalidPatternChar('x'))));
}

#[test]
fn legacy_generators_field_is_silently_ignored() {
    let mut input = circuit_json(vec![wire([0, 0], [1, 0], "positive")]);
    input.generators = vec![GeneratorJson {
        target: [0, 0],
        pattern: "10".to_string(),
        is_loop: false,
    }];

    let circuit = Circuit::try_from(input).expect("json must parse");
    assert!(circuit.inputs().is_empty(), "legacy generators must be ignored");
}

#[test]
fn legacy_testers_field_is_silently_ignored() {
    let mut input = circuit_json(vec![wire([0, 0], [1, 0], "positive")]);
    input.testers = vec![TesterJson {
        target: [1, 0],
        expected: "0".to_string(),
        is_loop: false,
    }];

    let circuit = Circuit::try_from(input).expect("json must parse");
    assert!(circuit.outputs().is_empty(), "legacy testers must be ignored");
}

#[test]
fn json_tests_parse_expected_pattern_returns_invalid_expected_pattern_char_error() {
    let err = parse_expected_pattern("10a").expect_err("must reject invalid expected pattern");
    assert!(matches!(err, FormatError::InvalidExpectedPatternChar('a')));
}

#[test]
fn json_tests_parse_wire_kind_returns_format_error() {
    let err = parse_wire_kind("bad").expect_err("must reject unknown kind");
    assert!(matches!(err, FormatError::InvalidWireKind(ref s) if s == "bad"));
}

#[test]
fn json_tests_parse_pattern_returns_invalid_pattern_char_error() {
    let err = parse_pattern("01a").expect_err("must reject invalid pattern char");
    assert!(matches!(err, FormatError::InvalidPatternChar('a')));
}

#[test]
fn json_tests_parse_pattern_returns_error_for_first_invalid_char() {
    let err = parse_pattern("z10").expect_err("must reject invalid pattern char");
    assert!(matches!(err, FormatError::InvalidPatternChar('z')));
}

#[test]
fn parse_sub_circuit_single_module() {
    let mut input = circuit_json(Vec::new());
    input.modules = vec![module("inverter", vec![[0, 0]], vec![[1, 0]])];
    input.subs = vec![(
        "inverter".to_string(),
        sub(vec![wire([0, 0], [1, 0], "negative")], vec![[0, 0]], vec![[1, 0]], Vec::new()),
    )];

    let circuit = Circuit::try_from(input).expect("json must parse");
    assert_eq!(circuit.modules().len(), 1);
}

#[test]
fn parse_sub_circuit_simulation_inverter() {
    let mut input = circuit_json(Vec::new());
    input.modules = vec![module("inverter", vec![[0, 0]], vec![[1, 0]])];
    input.subs = vec![(
        "inverter".to_string(),
        sub(vec![wire([0, 0], [1, 0], "negative")], vec![[0, 0]], vec![[1, 0]], Vec::new()),
    )];

    let circuit = Circuit::try_from(input).expect("json must parse");
    let mut sim = SimulatorSimple::new(circuit);
    sim.tick();

    assert_eq!(output_cell(&sim, Pos::new(1, 0)), Some(true));
}

#[test]
fn parse_sub_circuit_half_adder() {
    let mut input = circuit_json(vec![
        wire([0, 0], [1, 0], "negative"),
        wire([0, 0], [1, 1], "negative"),
    ]);
    input.modules = vec![module("half_adder", vec![[1, 0], [1, 1]], vec![[2, 0], [2, 1]])];
    input.subs = vec![(
        "half_adder".to_string(),
        sub(half_adder_wires(), vec![[0, 0], [0, 1]], vec![[3, 0], [3, 1]], Vec::new()),
    )];

    let circuit = Circuit::try_from(input).expect("json must parse");
    assert_eq!(circuit.modules().len(), 1);
}

#[test]
fn parse_sub_circuit_nested_modules() {
    let mut input = circuit_json(Vec::new());
    input.modules = vec![module(
        "full_adder",
        vec![[0, 0], [0, 1], [0, 2]],
        vec![[5, 0], [5, 1]],
    )];
    input.subs = vec![
        (
            "half_adder".to_string(),
            sub(half_adder_wires(), vec![[0, 0], [0, 1]], vec![[3, 0], [3, 1]], Vec::new()),
        ),
        (
            "full_adder".to_string(),
            sub(
                vec![
                    wire([3, 0], [4, 0], "positive"),
                    wire([0, 2], [4, 1], "positive"),
                    wire([3, 1], [8, 1], "positive"),
                    wire([7, 1], [8, 1], "positive"),
                ],
                vec![[0, 0], [0, 1], [0, 2]],
                vec![[8, 0], [8, 1]],
                vec![
                    module("half_adder", vec![[0, 0], [0, 1]], vec![[3, 0], [3, 1]]),
                    module("half_adder", vec![[4, 0], [4, 1]], vec![[7, 0], [7, 1]]),
                ],
            ),
        ),
    ];

    let circuit = Circuit::try_from(input).expect("json must parse");
    assert_eq!(circuit.modules().len(), 1);
    // The single module (full_adder) itself holds two nested modules.
    assert_eq!(circuit.modules()[0].circuit().modules().len(), 2);
}

#[test]
fn parse_sub_circuit_rejects_missing_sub() {
    let mut input = circuit_json(Vec::new());
    input.modules = vec![module("nonexistent", vec![[0, 0]], vec![[1, 0]])];

    let err = Circuit::try_from(input).expect_err("must reject missing sub-circuit");
    assert!(matches!(err, ParseError::SubCircuitNotFound(ref name) if name == "nonexistent"));
}

#[test]
fn parse_sub_circuit_rejects_circular_dependency() {
    let mut input = circuit_json(Vec::new());
    input.subs = vec![
        (
            "a".to_string(),
            sub(Vec::new(), vec![[0, 0]], vec![[1, 0]], vec![module("b", vec![[0, 0]], vec![[1, 0]])]),
        ),
        (
            "b".to_string(),
            sub(Vec::new(), vec![[0, 0]], vec![[1, 0]], vec![module("a", vec![[0, 0]], vec![[1, 0]])]),
        ),
    ];

    let err = Circuit::try_from(input).expect_err("must reject circular dependency");
    assert!(matches!(err, ParseError::CircularDependency(_)));
}

#[test]
fn parse_sub_circuit_rejects_input_count_mismatch() {
    let mut input = circuit_json(Vec::new());
    input.modules = vec![module("inv", vec![[0, 0], [0, 1]], vec![[1, 0]])];
    input.subs = vec![(
        "inv".to_string(),
        sub(vec![wire([0, 0], [1, 0], "negative")], vec![[0, 0]], vec![[1, 0]], Vec::new()),
    )];

    let err = Circuit::try_from(input).expect_err("must reject input count mismatch");
    assert!(matches!(
        err,
        ParseError::Circuit(CircuitError::SubInputCountMismatch { expected: 1, actual: 2 })
    ));
}

#[test]
fn parse_sub_circuit_rejects_output_count_mismatch() {
    let mut input = circuit_json(Vec::new());
    input.modules = vec![module("inv", vec![[0, 0]], vec![[1, 0], [1, 1]])];
    input.subs = vec![(
        "inv".to_string(),
        sub(vec![wire([0, 0], [1, 0], "negative")], vec![[0, 0]], vec![[1, 0]], Vec::new()),
    )];

    let err = Circuit::try_from(input).expect_err("must reject output count mismatch");
    assert!(matches!(
        err,
        ParseError::Circuit(CircuitError::SubOutputCountMismatch { expected: 1, actual: 2 })
    ));
}

#[test]
fn parse_sub_circuit_rejects_sub_input_with_incoming_wire() {
    let mut input = circuit_json(Vec::new());
    input.modules = vec![module("bad", vec![[0, 0]], vec![[1, 0]])];
    input.subs = vec![(
        "bad".to_string(),
        sub(vec![wire([1, 0], [0, 0], "positive")], vec![[0, 0]], vec![[1, 0]], Vec::new()),
    )];

    let err = Circuit::try_from(input).expect_err("must reject sub_input with incoming wire");
    assert!(matches!(
        err,
        ParseError::Circuit(CircuitError::SubInputHasIncomingWires(_))
    ));
}

#[test]
fn parse_sub_circuit_backward_compatible_without_subs() {
    let input = circuit_json(vec![wire([0, 0], [1, 0], "negative")]);

    let circuit = Circuit::try_from(input).expect("json must parse");
    assert!(circuit.modules().is_empty());
    let mut sim = SimulatorSimple::new(circuit);
    sim.tick();
    assert_eq!(output_cell(&sim, Pos::new(1, 0)), Some(true));
}

#[test]
fn simulate_to_output_json_reports_each_tick() {
    let circuit = Circuit::try_from(circuit_json(vec![wire([0, 0], [1, 0], "negative")]))
        .expect("json must parse");
    let output = simulate_to_output_json(circuit, 2);

    assert_eq!(output.ticks.len(), 2);
    assert_eq!(output.ticks[0].tick, 0);
    assert_eq!(output.ticks[1].tick, 1);
    assert_eq!(
        output.ticks[0].cells,
        vec![("0,0".to_string(), 0u8), ("1,0".to_string(), 1u8)]
    );
}

#[test]
fn circular_dependency_lists_the_unplaced_names() {
    let mut input = circuit_json(Vec::new());
    input.subs = vec![
        (
            "a".to_string(),
            sub(Vec::new(), vec![[0, 0]], vec![[1, 0]], vec![module("b", vec![[0, 0]], vec![[1, 0]])]),
        ),
        ("free".to_string(), sub(Vec::new(), vec![[0, 0]], vec![[1, 0]], Vec::new())),
        (
            "b".to_string(),
            sub(Vec::new(), vec![[0, 0]], vec![[1, 0]], vec![module("a", vec![[0, 0]], vec![[1, 0]])]),
        ),
    ];

    let err = Circuit::try_from(input).expect_err("must reject circular dependency");
    assert!(matches!(err, ParseError::CircularDependency(ref names) if names == "a, b"));
}

#[test]
fn module_of_unknown_kind_is_reported_by_its_kind() {
    let mut input = circuit_json(Vec::new());
    input.modules = vec![ModuleJson {
        module_type: "macro".to_string(),
        sub_circuit: None,
        input: vec![[0, 0]],
        output: vec![[1, 0]],
    }];

    let err = Circuit::try_from(input).expect_err("must reject unknown module kind");
    assert!(matches!(err, ParseError::SubCircuitNotFound(ref name) if name == "macro"));
}

#[test]
fn module_without_sub_circuit_is_reported() {
    let mut input = circuit_json(Vec::new());
    input.modules = vec![ModuleJson {
        module_type: "sub".to_string(),
        sub_circuit: None,
        input: vec![[0, 0]],
        output: vec![[1, 0]],
    }];

    let err = Circuit::try_from(input).expect_err("must reject missing sub_circuit");
    assert!(
        matches!(err, ParseError::SubCircuitNotFound(ref name) if name == "(missing sub_circuit field)")
    );
}

#[test]
fn sub_circuit_output_left_of_input_is_rejected() {
    let mut input = circuit_json(Vec::new());
    input.subs = vec![(
        "bad".to_string(),
        sub(Vec::new(), vec![[1, 0]], vec![[0, 0]], Vec::new()),
    )];

    let err = Circuit::try_from(input).expect_err("must reject output before input");
    assert!(matches!(err, ParseError::Circuit(CircuitError::SubOutputBeforeSubInput)));
}

#[test]
fn sub_circuit_port_gap_is_rejected() {
    let mut input = circuit_json(Vec::new());
    input.subs = vec![(
        "bad".to_string(),
        sub(Vec::new(), vec![[0, 0], [0, 2]], vec![[1, 0]], Vec::new()),
    )];

    let err = Circuit::try_from(input).expect_err("must reject a gap in the ports");
    assert!(matches!(err, ParseError::Circuit(CircuitError::InvalidPortColumn)));
}

#[test]
fn expected_pattern_reads_dont_care() {
    assert_eq!(
        parse_expected_pattern("1x0").expect("valid pattern"),
        vec![Some(true), None, Some(false)]
    );
    assert_eq!(parse_wire_kind("positive").expect("valid kind"), lgcell2_core::circuit::WireKind::Positive);
    assert_eq!(parse_pattern("").expect("empty pattern"), Vec::<bool>::new());
}

#[test]
fn json_tests_output_json_has_expected_shape() {
    let circuit = Circuit::try_from(circuit_json(vec![wire([0, 0], [1, 0], "negative")]))
        .expect("json must parse");
    let output = simulate_to_output_json(circuit, 2);

    assert!(!output.ticks.is_empty());
    assert!(output.ticks.iter().any(|t| t.tick == 0));
    assert!(output.ticks.iter().any(|t| t.cells.contains(&("0,0".to_string(), 0u8))));
    assert!(output.ticks.iter().any(|t| t.cells.contains(&("1,0".to_string(), 1u8))));
}

#[test]
fn half_adder_module_adds_its_inputs() {
    let mut input = circuit_json(vec![
        wire([0, 0], [1, 0], "negative"),
        wire([0, 0], [1, 1], "negative"),
    ]);
    input.modules = vec![module("half_adder", vec![[1, 0], [1, 1]], vec![[2, 0], [2, 1]])];
    input.subs = vec![(
        "half_adder".to_string(),
        sub(half_adder_wires(), vec![[0, 0], [0, 1]], vec![[3, 0], [3, 1]], Vec::new()),
    )];
    let circuit = Circuit::try_from(input).expect("json must parse");
    let mut sim = SimulatorSimple::new(circuit);

    // (0,0) off: both module inputs on, so the sum is off and the carry on.
    sim.tick();
    assert_eq!(output_cell(&sim, Pos::new(2, 0)), Some(false));
    assert_eq!(output_cell(&sim, Pos::new(2, 1)), Some(true));

    // (0,0) on: both module inputs off, so both outputs are off.
    sim.set_cell(Pos::new(0, 0), true).expect("cell exists");
    sim.tick();
    assert_eq!(output_cell(&sim, Pos::new(2, 0)), Some(false));
    assert_eq!(output_cell(&sim, Pos::new(2, 1)), Some(false));
}

#[test]
fn nested_modules_are_simulated() {
    let mut input = circuit_json(Vec::new());
    input.modules = vec![module(
        "full_adder",
        vec![[0, 0], [0, 1], [0, 2]],
        vec![[5, 0], [5, 1]],
    )];
    input.subs = vec![
        (
            "half_adder".to_string(),
            sub(half_adder_wires(), vec![[0, 0], [0, 1]], vec![[3, 0], [3, 1]], Vec::new()),
        ),
        (
            "full_adder".to_string(),
            sub(
                vec![
                    wire([3, 0], [4, 0], "positive"),
                    wire([0, 2], [4, 1], "positive"),
                    wire([3, 1], [8, 1], "positive"),
                    wire([7, 1], [8, 1], "positive"),
                ],
                vec![[0, 0], [0, 1], [0, 2]],
                vec![[8, 0], [8, 1]],
                vec![
                    module("half_adder", vec![[0, 0], [0, 1]], vec![[3, 0], [3, 1]]),
                    module("half_adder", vec![[4, 0], [4, 1]], vec![[7, 0], [7, 1]]),
                ],
            ),
        ),
    ];
    let circuit = Circuit::try_from(input).expect("json must parse");
    let mut sim = SimulatorSimple::new(circuit);

    sim.tick();
    assert_eq!(output_cell(&sim, Pos::new(5, 1)), Some(false));

    // 1 + 1 + 0 carries.
    sim.set_cell(Pos::new(0, 0), true).expect("cell exists");
    sim.set_cell(Pos::new(0, 1), true).expect("cell exists");
    sim.tick();
    assert_eq!(output_cell(&sim, Pos::new(5, 1)), Some(true));

    // 1 + 0 + 0 does not.
    sim.set_cell(Pos::new(0, 1), false).expect("cell exists");
    sim.tick();
    assert_eq!(output_cell(&sim, Pos::new(5, 1)), Some(false));
}
