use lgcell2_core::base::FormatError;
use lgcell2_core::circuit::Circuit;
use lgcell2_core::io::json::{
    parse_expected_pattern, parse_pattern, parse_wire_kind, simulate_to_output_json, CircuitJson,
    WireJson,
};

#[test]
fn parse_expected_pattern_returns_invalid_expected_pattern_char_error() {
    let err = parse_expected_pattern("10a").expect_err("must reject invalid expected pattern");
    assert!(matches!(err, FormatError::InvalidExpectedPatternChar('a')));
}

#[test]
fn parse_wire_kind_returns_format_error() {
    let err = parse_wire_kind("bad").expect_err("must reject unknown kind");
    assert!(matches!(err, FormatError::InvalidWireKind(ref s) if s == "bad"));
}

#[test]
fn parse_pattern_returns_invalid_pattern_char_error() {
    let err = parse_pattern("01a").expect_err("must reject invalid pattern char");
    assert!(matches!(err, FormatError::InvalidPatternChar('a')));
}

#[test]
fn parse_pattern_returns_error_for_first_invalid_char() {
    let err = parse_pattern("z10").expect_err("must reject invalid pattern char");
    assert!(matches!(err, FormatError::InvalidPatternChar('z')));
}

#[test]
fn output_json_has_expected_shape() {
    let input = CircuitJson {
        wires: vec![WireJson { src: [0, 0], dst: [1, 0], kind: "negative".to_string() }],
        input: Vec::new(),
        output: Vec::new(),
        generators: Vec::new(),
        testers: Vec::new(),
        modules: Vec::new(),
        subs: Vec::new(),
    };

    let circuit = Circuit::try_from(input).expect("json must parse");
    let output = simulate_to_output_json(circuit, 2);

    assert!(!output.ticks.is_empty());
    assert!(output.ticks.iter().any(|t| t.tick == 1));
    assert!(output.ticks.iter().any(|t| t.cells.contains(&("0,0".to_string(), 0u8))));
    assert!(output.ticks.iter().any(|t| t.cells.contains(&("1,0".to_string(), 1u8))));
}
