use lgcell2_core::base::{PosSet, SimulationError};
use lgcell2_core::circuit::{Circuit, Generator, Input, Pos, Wire, WireKind};
use lgcell2_core::platform::console::KeyInput;
use lgcell2_core::simulation::engine::CellMap;
use lgcell2_core::simulation::{OutputFormat, Rect, SimState, Simulator, SimulatorSimple, StepResult};
use lgcell2_core::view::renderer::{fit_status_line, ViewRenderer};
use lgcell2_core::view::{initial_viewport, may_iterate, view_outcome, ViewControl};
use lgcell2_core::wasm_api::types::{WasmGeneratorInput, WasmWireInput, WasmWireKind};
use lgcell2_core::wasm_api::{WasmCircuitInput, WasmSimulator};

fn chain() -> Circuit {
    Circuit::new(
        PosSet::from_slice(&[Pos::new(0, 0), Pos::new(1, 0), Pos::new(2, 0)]),
        vec![
            Wire::new(Pos::new(0, 0), Pos::new(1, 0), WireKind::Negative),
            Wire::new(Pos::new(1, 0), Pos::new(2, 0), WireKind::Negative),
            Wire::new(Pos::new(2, 0), Pos::new(0, 0), WireKind::Positive),
        ],
    )
    .expect("valid circuit")
}

#[test]
fn stepping_cell_by_cell_ends_where_a_whole_tick_ends() {
    let mut whole = SimulatorSimple::new(chain());
    let mut stepped = SimulatorSimple::new(chain());
    for _ in 0..5 {
        whole.tick();
        let mut steps = 0;
        while stepped.step() == StepResult::Continue {
            steps += 1;
        }
        assert_eq!(steps, 2);
        assert_eq!(whole.last_output(), stepped.last_output());
        assert!(!stepped.is_updating());
    }
}

#[test]
fn backward_wire_reads_the_previous_tick() {
    // (2,0) -> (0,0) goes backward: (0,0) sees the value (2,0) had one tick before.
    let mut sim = SimulatorSimple::new(chain());
    sim.tick();
    // tick 0: (0,0)=prev(2,0)=false, (1,0)=!false=true, (2,0)=!true=false
    assert_eq!(sim.last_output().cells.get(&Pos::new(0, 0)), Some(&false));
    assert_eq!(sim.last_output().cells.get(&Pos::new(1, 0)), Some(&true));
    assert_eq!(sim.last_output().cells.get(&Pos::new(2, 0)), Some(&false));
}

#[test]
fn run_equals_ticks_one_by_one_and_snapshots_number_ticks() {
    let mut a = SimulatorSimple::new(chain());
    let mut b = SimulatorSimple::new(chain());
    a.run(4);
    for _ in 0..4 {
        b.tick();
    }
    assert_eq!(a.last_output(), b.last_output());
    assert_eq!(a.current_tick(), 4);

    let snapshots = a.run_with_snapshots(3);
    assert_eq!(snapshots.len(), 3);
    for (i, snapshot) in snapshots.iter().enumerate() {
        assert_eq!(snapshot.tick, 4 + i as u64);
    }
}

#[test]
fn viewport_output_holds_exactly_the_cells_inside() {
    let mut sim = SimulatorSimple::with_output_format(
        chain(),
        OutputFormat::ViewPort(vec![
            Rect::new(Pos::new(0, 0), Pos::new(0, 0)),
            Rect::new(Pos::new(2, 0), Pos::new(5, 5)),
        ]),
    );
    sim.tick();
    let cells = &sim.last_output().cells;
    assert_eq!(cells.len(), 2);
    assert!(cells.contains_key(&Pos::new(0, 0)));
    assert!(!cells.contains_key(&Pos::new(1, 0)));
    assert!(cells.contains_key(&Pos::new(2, 0)));
}

#[test]
fn set_cell_on_unknown_cell_is_an_error_and_changes_nothing() {
    let mut sim = SimulatorSimple::new(chain());
    let before = sim.last_output().clone();
    assert_eq!(
        sim.set_cell(Pos::new(7, 7), true),
        Err(SimulationError::UnknownCell(Pos::new(7, 7)))
    );
    assert_eq!(sim.last_output(), &before);
    assert_eq!(sim.current_cell(), Some(Pos::new(0, 0)));
}

#[test]
fn current_cell_follows_the_steps() {
    let mut sim = SimulatorSimple::new(chain());
    assert_eq!(sim.current_cell(), Some(Pos::new(0, 0)));
    sim.step();
    assert_eq!(sim.current_cell(), Some(Pos::new(1, 0)));
    sim.step();
    assert_eq!(sim.current_cell(), Some(Pos::new(2, 0)));
    assert_eq!(sim.step(), StepResult::TickComplete);
    assert_eq!(sim.current_cell(), Some(Pos::new(0, 0)));
    assert_eq!(sim.current_tick(), 1);
}

#[test]
fn verify_testers_is_empty_before_the_first_tick() {
    let sim = SimulatorSimple::new(chain());
    assert!(sim.verify_testers().is_empty());
}

#[test]
fn sim_state_set_and_get() {
    let circuit = chain();
    let mut state = SimState::from_circuit(&circuit);
    assert_eq!(state.get(Pos::new(1, 0)), Some(false));
    assert_eq!(state.set(Pos::new(1, 0), true), Ok(()));
    assert_eq!(state.get(Pos::new(1, 0)), Some(true));
    assert_eq!(state.get(Pos::new(9, 9)), None);
    assert_eq!(
        state.set(Pos::new(9, 9), true),
        Err(SimulationError::UnknownCell(Pos::new(9, 9)))
    );
    assert_eq!(state.values().len(), 3);
}

#[test]
fn cell_map_set_value_reports_whether_found() {
    let mut map = CellMap::from_entries(vec![(Pos::new(0, 0), false), (Pos::new(1, 0), true)]);
    assert!(map.set_value(Pos::new(0, 0), true));
    assert!(!map.set_value(Pos::new(5, 5), true));
    assert_eq!(map.get(&Pos::new(0, 0)), Some(&true));
    assert_eq!(map.get(&Pos::new(5, 5)), None);
    assert_eq!(map.entries(), &[(Pos::new(0, 0), true), (Pos::new(1, 0), true)]);
}

#[test]
fn status_line_always_has_the_requested_width() {
    for width in 0..50usize {
        let line = fit_status_line("tick:7 | running | (0,0)-(9,9)", "(q:quit)", width);
        assert_eq!(line.chars().count(), width);
    }
    assert_eq!(fit_status_line("ab", "cd", 6), "ab  cd");
    assert_eq!(fit_status_line("abcdef", "cd", 6), "abc cd");
    assert_eq!(fit_status_line("ab", "cdefgh", 4), "cdef");
}

#[test]
fn render_frame_puts_the_status_bar_below_the_grid() {
    let circuit = Circuit::new(PosSet::from_slice(&[Pos::new(0, 0)]), Vec::new()).expect("valid");
    let state = SimState::from_circuit(&circuit);
    let renderer = ViewRenderer::new(0, 0);
    let frame = renderer.render_frame(&state, 3, true, 80, 2);
    let (grid, status) = frame.split_once('\n').expect("two lines");
    assert_eq!(grid, "_".to_string() + &".".repeat(79));
    assert_eq!(status.chars().count(), 80);
    assert!(status.starts_with("tick:3 | paused | (0,0)-(79,0) "));
    assert!(status.ends_with("(q:quit space:pause arrows:scroll)"));
    let narrow = renderer.render_frame(&state, 3, true, 40, 1);
    assert_eq!(narrow, "tick: (q:quit space:pause arrows:scroll)");
    assert_eq!(renderer.render_frame(&state, 3, true, 40, 0), "");
}

#[test]
fn render_grid_reads_tick_outputs_too() {
    let mut sim = SimulatorSimple::new(chain());
    sim.tick();
    let renderer = ViewRenderer::new(0, 0);
    assert_eq!(renderer.render_grid(&sim.last_output().cells, 4, 1), "_#_.");
}

#[test]
fn initial_viewport_is_the_smallest_corner() {
    let circuit = Circuit::new(
        PosSet::from_slice(&[Pos::new(3, -2), Pos::new(-1, 5), Pos::new(4, 4)]),
        Vec::new(),
    )
    .expect("valid");
    assert_eq!(initial_viewport(&circuit), (-1, -2));
    let empty = Circuit::new(PosSet::new(), Vec::new()).expect("valid");
    assert_eq!(initial_viewport(&empty), (0, 0));
}

#[test]
fn view_control_keys() {
    let mut control = ViewControl::new((1, 2));
    assert!(!control.on_key(KeyInput::Char(' ')));
    assert!(control.paused);
    assert!(control.waits_for_key());
    assert!(!control.tick_due(true));
    assert!(!control.on_key(KeyInput::Left));
    assert!(!control.on_key(KeyInput::Down));
    assert_eq!(control.renderer.viewport(), (0, 3));
    assert!(!control.on_key(KeyInput::Char('z')));
    assert!(control.on_key(KeyInput::Char('q')));
    assert!(!control.on_key(KeyInput::Char(' ')));
    assert!(control.tick_due(true));
    assert!(!control.tick_due(false));
}

fn simple_input() -> WasmCircuitInput {
    WasmCircuitInput {
        wires: vec![WasmWireInput { src: [0, 0], dst: [1, 0], kind: WasmWireKind::Negative }],
        generators: Vec::new(),
        modules: Vec::new(),
        sub_circuits: Vec::new(),
    }
}

#[test]
fn wasm_simulator_runs_steps_until_a_tick_completes() {
    let mut sim = WasmSimulator::new(simple_input()).expect("valid input");
    let r = sim.run_steps(0);
    assert_eq!((r.steps_executed, r.ticks_completed, r.completed), (0, 0, false));
    let r = sim.run_steps(1);
    assert_eq!((r.steps_executed, r.ticks_completed, r.completed), (1, 0, false));
    let r = sim.run_steps(1000);
    assert_eq!((r.steps_executed, r.ticks_completed, r.completed), (1, 1, true));
    assert_eq!(sim.current_tick(), 1);
    assert_eq!(sim.get_cell(1, 0), Some(true));
    let result = sim.run(2);
    assert_eq!(result.tick, 3);
    assert_eq!(result.cells.len(), 2);
    assert!(sim.set_cell(9, 9, true).is_err());
    assert_eq!(sim.set_cell(0, 0, true), Ok(()));
    assert_eq!(sim.get_state()[0].value, true);
}

#[test]
fn wasm_input_with_bad_pattern_is_rejected() {
    let mut input = simple_input();
    input.generators = vec![WasmGeneratorInput { target: [5, 5], pattern: "1y".to_string(), is_loop: true }];
    assert!(WasmSimulator::new(input).is_err());
    let mut input = simple_input();
    input.generators = vec![WasmGeneratorInput { target: [5, 5], pattern: "10".to_string(), is_loop: true }];
    let sim = WasmSimulator::new(input).expect("valid input");
    assert_eq!(sim.get_state().len(), 3);
}

#[test]
fn generator_drives_its_cell_each_tick() {
    let circuit = Circuit::with_components(
        PosSet::from_slice(&[Pos::new(0, 0), Pos::new(1, 0)]),
        vec![Wire::new(Pos::new(0, 0), Pos::new(1, 0), WireKind::Positive)],
        vec![Input::Generator(Generator::new(Pos::new(0, 0), vec![true, false, false], true))],
        Vec::new(),
    )
    .expect("valid");
    let mut sim = SimulatorSimple::new(circuit);
    let snapshots = sim.run_with_snapshots(4);
    let values: Vec<Option<&bool>> = snapshots.iter().map(|s| s.cells.get(&Pos::new(1, 0))).collect();
    assert_eq!(values, vec![Some(&true), Some(&false), Some(&false), Some(&true)]);
}

#[test]
fn cell_map_reads_back_what_was_written_and_leaves_other_cells() {
    let mut map = CellMap::from_entries(vec![(Pos::new(0, 0), false), (Pos::new(1, 0), true)]);
    map.set_value(Pos::new(1, 0), false);
    assert_eq!(map.get(&Pos::new(1, 0)), Some(&false));
    assert_eq!(map.get(&Pos::new(0, 0)), Some(&false));
    map.set_value(Pos::new(7, 7), true);
    assert_eq!(map.get(&Pos::new(7, 7)), None);
}

#[test]
fn set_cell_shows_in_the_output_at_once() {
    let mut sim = SimulatorSimple::new(chain());
    for pos in [Pos::new(0, 0), Pos::new(1, 0), Pos::new(2, 0)] {
        assert_eq!(sim.set_cell(pos, true), Ok(()));
        assert_eq!(sim.last_output().cells.get(&pos), Some(&true));
    }
    let mut viewed = SimulatorSimple::with_output_format(
        chain(),
        OutputFormat::ViewPort(vec![Rect::new(Pos::new(0, 0), Pos::new(0, 0))]),
    );
    assert_eq!(viewed.set_cell(Pos::new(0, 0), true), Ok(()));
    assert_eq!(viewed.last_output().cells.get(&Pos::new(0, 0)), Some(&true));
    assert_eq!(viewed.set_cell(Pos::new(2, 0), true), Ok(()));
    assert_eq!(viewed.last_output().cells.get(&Pos::new(2, 0)), None);
}

#[test]
fn wire_state_slots_do_not_share_values() {
    let cells = PosSet::from_slice(&[Pos::new(0, 0), Pos::new(1, 0), Pos::new(2, 0), Pos::new(3, 0)]);
    let wires = vec![
        Wire::new(Pos::new(2, 0), Pos::new(0, 0), WireKind::Positive),
        Wire::new(Pos::new(2, 0), Pos::new(1, 0), WireKind::Negative),
    ];
    let circuit = Circuit::new(cells, wires).expect("valid circuit");
    let mut state = lgcell2_core::simulation::WireSimState::from_circuit(&circuit);
    state.update_wire(0, true);
    assert_eq!(state.get_delayed_wire(0), Some(true));
    assert_eq!(state.get_delayed_wire(1), Some(false));
    assert_eq!(state.get_stateless_cell(2), Some(false));
    assert_eq!(state.get_stateless_cell(3), Some(false));
    state.update_cell(3, true);
    assert_eq!(state.get_stateless_cell(3), Some(true));
    assert_eq!(state.get_stateless_cell(2), Some(false));
    assert_eq!(state.get_delayed_wire(1), Some(false));
}

#[test]
fn view_loop_iterates_up_to_its_limit() {
    assert!(may_iterate(0, None));
    assert!(may_iterate(usize::MAX, None));
    assert!(may_iterate(2, Some(3)));
    assert!(!may_iterate(3, Some(3)));
    assert!(!may_iterate(0, Some(0)));
}

#[test]
fn view_outcome_joins_both_errors() {
    assert_eq!(view_outcome(Ok(()), Ok(())), Ok(()));
    assert_eq!(view_outcome(Err("a".to_string()), Ok(())), Err("a".to_string()));
    assert_eq!(view_outcome(Ok(()), Err("b".to_string())), Err("b".to_string()));
    assert_eq!(
        view_outcome(Err("a".to_string()), Err("b".to_string())),
        Err("view loop failed: a; and terminal restore failed: b".to_string())
    );
}
