use lgcell2_core::circuit::{CircuitBuilder, Input, Output, Pos, WireKind};
use lgcell2_core::circuit::{Generator, Tester};

#[test]
fn add_wire_registers_cells_automatically() {
    let mut builder = CircuitBuilder::new();
    builder.add_wire(Pos::new(0, 0), Pos::new(1, 0), WireKind::Positive);

    let circuit = builder.build().expect("circuit must be valid");
    assert!(circuit.cells().contains(&Pos::new(0, 0)));
    assert!(circuit.cells().contains(&Pos::new(1, 0)));
}

#[test]
fn build_simple_circuit() {
    let mut builder = CircuitBuilder::new();
    builder.add_wire(Pos::new(0, 0), Pos::new(1, 0), WireKind::Positive);
    builder.add_wire(Pos::new(1, 0), Pos::new(2, 0), WireKind::Negative);

    let circuit = builder.build().expect("circuit must be valid");
    assert_eq!(circuit.cells().len(), 3);
    assert_eq!(circuit.wires().len(), 2);
}

#[test]
fn build_with_input_output() {
    let mut builder = CircuitBuilder::new();
    builder.add_wire(Pos::new(0, 0), Pos::new(1, 0), WireKind::Positive);
    builder.add_input(Input::Generator(Generator::new(
        Pos::new(0, 0),
        vec![true, false],
        false,
    )));
    builder.add_output(Output::Tester(Tester::new(
        Pos::new(1, 0),
        vec![Some(true), Some(false)],
        false,
    )));

    let circuit = builder.build().expect("circuit must be valid");
    assert_eq!(circuit.inputs().len(), 1);
    assert_eq!(circuit.outputs().len(), 1);
}

#[test]
fn build_propagates_self_loop_error() {
    let mut builder = CircuitBuilder::new();
    builder.add_wire(Pos::new(0, 0), Pos::new(0, 0), WireKind::Positive);

    let result = builder.build();
    assert!(result.is_err());
}
