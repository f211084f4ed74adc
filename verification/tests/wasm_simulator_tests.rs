use lgcell2_core::wasm_api::types::{WasmWireInput, WasmWireKind};
use lgcell2_core::wasm_api::{WasmCircuitInput, WasmSimulator};

fn make_simple_input() -> WasmCircuitInput {
    WasmCircuitInput {
        wires: vec![WasmWireInput { src: [0, 0], dst: [1, 0], kind: WasmWireKind::Positive }],
        generators: vec![],
        modules: vec![],
        sub_circuits: vec![],
    }
}

#[test]
fn new_creates_simulator_from_typed_input() {
    let input = make_simple_input();
    let result = WasmSimulator::new(input);
    assert!(result.is_ok());
}

#[test]
fn run_returns_tick_result() {
    let input = make_simple_input();
    let mut sim = WasmSimulator::new(input).unwrap();
    let result = sim.run(3);
    assert_eq!(result.tick, 3);
    assert!(!result.cells.is_empty());
}

#[test]
fn run_steps_completes_a_tick() {
    let input = make_simple_input();
    let mut sim = WasmSimulator::new(input).unwrap();
    let result = sim.run_steps(1000);
    assert!(result.completed);
    assert_eq!(result.ticks_completed, 1);
    assert!(result.steps_executed > 0);
}

#[test]
fn run_steps_with_zero_max_returns_no_progress() {
    let input = make_simple_input();
    let mut sim = WasmSimulator::new(input).unwrap();
    let result = sim.run_steps(0);
    assert!(!result.completed);
    assert_eq!(result.steps_executed, 0);
    assert_eq!(result.ticks_completed, 0);
}

#[test]
fn current_tick_increments_after_run() {
    let input = make_simple_input();
    let mut sim = WasmSimulator::new(input).unwrap();
    assert_eq!(sim.current_tick(), 0);
    sim.run(2);
    assert_eq!(sim.current_tick(), 2);
}

#[test]
fn get_state_returns_all_cells() {
    let input = make_simple_input();
    let sim = WasmSimulator::new(input).unwrap();
    let state = sim.get_state();
    assert_eq!(state.len(), 2);
}

#[test]
fn get_cell_returns_value() {
    let input = make_simple_input();
    let sim = WasmSimulator::new(input).unwrap();
    assert_eq!(sim.get_cell(0, 0), Some(false));
    assert_eq!(sim.get_cell(1, 0), Some(false));
}

#[test]
fn get_cell_returns_none_for_unknown() {
    let input = make_simple_input();
    let sim = WasmSimulator::new(input).unwrap();
    assert_eq!(sim.get_cell(99, 99), None);
}

#[test]
fn set_cell_updates_value() {
    let input = make_simple_input();
    let mut sim = WasmSimulator::new(input).unwrap();
    sim.set_cell(0, 0, true).unwrap();
    assert_eq!(sim.get_cell(0, 0), Some(true));
}

#[test]
fn set_cell_fails_for_unknown_cell() {
    let input = make_simple_input();
    let mut sim = WasmSimulator::new(input).unwrap();
    let result = sim.set_cell(99, 99, true);
    assert!(result.is_err());
}
