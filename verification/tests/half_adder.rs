use lgcell2_core::base::PosSet;
use lgcell2_core::circuit::{Circuit, Pos, Wire, WireKind};
use lgcell2_core::simulation::{Simulator, SimulatorSimple};

fn build_half_adder(a: bool, b: bool) -> SimulatorSimple {
    let cells = PosSet::from_slice(&[
        Pos::new(0, 0),
        Pos::new(0, 1),
        Pos::new(1, 0), // or1
        Pos::new(1, 1), // nand1
        Pos::new(2, 0), // nand_xor
        Pos::new(3, 0), // sum
        Pos::new(2, 1), // nand_ab
        Pos::new(3, 1), // carry
    ]);

    let wires = vec![
        Wire::new(Pos::new(0, 0), Pos::new(1, 0), WireKind::Positive),
        Wire::new(Pos::new(0, 1), Pos::new(1, 0), WireKind::Positive),
        Wire::new(Pos::new(0, 0), Pos::new(1, 1), WireKind::Negative),
        Wire::new(Pos::new(0, 1), Pos::new(1, 1), WireKind::Negative),
        Wire::new(Pos::new(1, 0), Pos::new(2, 0), WireKind::Negative),
        Wire::new(Pos::new(1, 1), Pos::new(2, 0), WireKind::Negative),
        Wire::new(Pos::new(2, 0), Pos::new(3, 0), WireKind::Negative),
        Wire::new(Pos::new(0, 0), Pos::new(2, 1), WireKind::Negative),
        Wire::new(Pos::new(0, 1), Pos::new(2, 1), WireKind::Negative),
        Wire::new(Pos::new(2, 1), Pos::new(3, 1), WireKind::Negative),
    ];

    let circuit = Circuit::new(cells, wires).expect("half adder circuit must be valid");
    let mut sim = SimulatorSimple::new(circuit);
    sim.set_cell(Pos::new(0, 0), a).expect("input cell a exists");
    sim.set_cell(Pos::new(0, 1), b).expect("input cell b exists");
    sim
}

#[test]
fn half_adder_truth_table() {
    let cases = [
        (false, false, false, false),
        (false, true, true, false),
        (true, false, true, false),
        (true, true, false, true),
    ];

    for (a, b, expected_sum, expected_carry) in cases {
        let mut sim = build_half_adder(a, b);
        sim.tick();

        assert_eq!(sim.last_output().cells.get(&Pos::new(3, 0)), Some(&expected_sum));
        assert_eq!(sim.last_output().cells.get(&Pos::new(3, 1)), Some(&expected_carry));
    }
}
