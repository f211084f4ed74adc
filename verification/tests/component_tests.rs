use lgcell2_core::base::PosSet;
use lgcell2_core::circuit::{Circuit, Generator, Pos, ResolvedModule, Tester, Wire, WireKind};

#[test]
fn value_at_non_loop_holds_last_value() {
    let generator = Generator::new(Pos::new(0, 0), vec![true, false], false);

    assert!(generator.value_at(0));
    assert!(!generator.value_at(1));
    assert!(!generator.value_at(2));
    assert!(!generator.value_at(10));
}

#[test]
fn value_at_loop_repeats_pattern() {
    let generator = Generator::new(Pos::new(0, 0), vec![true, false], true);

    assert!(generator.value_at(0));
    assert!(!generator.value_at(1));
    assert!(generator.value_at(2));
    assert!(!generator.value_at(3));
}

#[test]
fn value_at_loop_is_correct_across_u32_max_boundary() {
    // A looping pattern of length 3: the value at tick t is pattern[t % 3].
    //   u32::MAX     % 3 = 0 -> true
    //   u32::MAX + 1 % 3 = 1 -> false
    //   u32::MAX + 2 % 3 = 2 -> true
    let generator = Generator::new(Pos::new(0, 0), vec![true, false, true], true);

    assert!(generator.value_at(u64::from(u32::MAX)));
    assert!(!generator.value_at(u64::from(u32::MAX) + 1));
    assert!(generator.value_at(u64::from(u32::MAX) + 2));
}

#[test]
fn value_at_non_loop_saturates_at_last_beyond_u32_max() {
    // Past its end a non-looping pattern keeps its last value, however large the tick.
    let generator = Generator::new(Pos::new(0, 0), vec![true, false], false);

    assert!(!generator.value_at(u64::from(u32::MAX)));
    assert!(!generator.value_at(u64::from(u32::MAX) + 1));
}

#[test]
fn resolved_module_accessors() {
    let sub_cells = PosSet::from_slice(&[Pos::new(0, 0), Pos::new(1, 0)]);
    let sub_wires = vec![Wire::new(Pos::new(0, 0), Pos::new(1, 0), WireKind::Negative)];
    let sub_circuit = Circuit::new(sub_cells, sub_wires).expect("sub-circuit must be valid");

    let module = ResolvedModule::new(
        sub_circuit.clone(),
        vec![Pos::new(1, 0)],
        vec![Pos::new(2, 0)],
        vec![Pos::new(0, 0)],
        vec![Pos::new(1, 0)],
    );

    assert_eq!(module.input(), &[Pos::new(1, 0)]);
    assert_eq!(module.output(), &[Pos::new(2, 0)]);
    assert_eq!(module.sub_input(), &[Pos::new(0, 0)]);
    assert_eq!(module.sub_output(), &[Pos::new(1, 0)]);
    assert_eq!(module.circuit().wires().len(), 1);
}

#[test]
fn expected_at_non_loop_returns_none_after_pattern_end() {
    let tester = Tester::new(Pos::new(1, 0), vec![Some(true), Some(false)], false);

    assert_eq!(tester.expected_at(0), Some(true));
    assert_eq!(tester.expected_at(1), Some(false));
    assert_eq!(tester.expected_at(2), None);
}

#[test]
fn expected_at_loop_repeats_pattern() {
    let tester = Tester::new(
        Pos::new(1, 0),
        vec![Some(true), None, Some(false)],
        true,
    );

    assert_eq!(tester.expected_at(0), Some(true));
    assert_eq!(tester.expected_at(1), None);
    assert_eq!(tester.expected_at(2), Some(false));
    assert_eq!(tester.expected_at(3), Some(true));
}

#[test]
fn pos_ord_is_lexicographic_by_x_then_y() {
    let mut positions = [Pos::new(1, 0), Pos::new(0, 2), Pos::new(0, 1), Pos::new(1, -1)];
    positions.sort();

    assert_eq!(
        positions,
        [Pos::new(0, 1), Pos::new(0, 2), Pos::new(1, -1), Pos::new(1, 0)]
    );
}

#[test]
fn display_formats_as_parenthesized_pair() {
    assert_eq!(Pos::new(0, 0).to_string(), "(0, 0)");
    assert_eq!(Pos::new(3, -1).to_string(), "(3, -1)");
}

#[test]
fn propagate_positive_keeps_value() {
    let wire = Wire::new(Pos::new(0, 0), Pos::new(1, 0), WireKind::Positive);
    assert!(wire.propagate(true));
    assert!(!wire.propagate(false));
}

#[test]
fn propagate_negative_inverts_value() {
    let wire = Wire::new(Pos::new(0, 0), Pos::new(1, 0), WireKind::Negative);
    assert!(!wire.propagate(true));
    assert!(wire.propagate(false));
}
