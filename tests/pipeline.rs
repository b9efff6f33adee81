use bfc::bounds::{highest_cell_index, MAX_CELL_INDEX};
use bfc::execution::{execute, MAX_STEPS};
use bfc::ir::{Instruction, Position};
use bfc::parser::parse;
use bfc::peephole::{combine_adjacent, fuse_offsets_instrs, multiply_move_changes, optimize, same_program};

fn at(start: usize, end: usize) -> Position {
    Position { start, end }
}

fn parse_ok(src: &str) -> Vec<Instruction> {
    match parse(src) {
        Ok(v) => v,
        Err(e) => panic!("parse failed: {}", e.message),
    }
}

fn render(instrs: &[Instruction]) -> String {
    let mut s = String::new();
    for i in instrs {
        match i {
            Instruction::Increment { amount: 1, offset: 0, .. } => s.push('+'),
            Instruction::Increment { amount: -1, offset: 0, .. } => s.push('-'),
            Instruction::PointerMove { delta: 1, .. } => s.push('>'),
            Instruction::PointerMove { delta: -1, .. } => s.push('<'),
            Instruction::Read { .. } => s.push(','),
            Instruction::Write { .. } => s.push('.'),
            Instruction::Loop { body, .. } => {
                s.push('[');
                s.push_str(&render(body));
                s.push(']');
            }
            other => panic!("not a parser instruction: {:?}", other),
        }
    }
    s
}

#[test]
fn parse_positions_of_leaves_and_loops() {
    let v = parse_ok("+[>]");
    assert_eq!(v.len(), 2);
    assert!(matches!(v[0], Instruction::Increment { amount: 1, offset: 0, position } if position == at(0, 0)));
    match &v[1] {
        Instruction::Loop { body, position } => {
            assert_eq!(*position, at(1, 3));
            assert!(matches!(body[0], Instruction::PointerMove { delta: 1, position } if position == at(2, 2)));
        }
        other => panic!("expected a loop, got {:?}", other),
    }
}

#[test]
fn parse_ignores_comments() {
    let v = parse_ok("a+ b\n-");
    assert_eq!(render(&v), "+-");
    assert!(matches!(v[1], Instruction::Increment { amount: -1, position, .. } if position == at(5, 5)));
}

#[test]
fn parse_round_trip_of_tokens() {
    for src in ["", "+-<>.,", "[[]]", "+[->+<]>.,[-]", "[][.[,]]"] {
        assert_eq!(render(&parse_ok(src)), src);
    }
}

#[test]
fn parse_unmatched_close() {
    let e = parse("+]").unwrap_err();
    assert_eq!(e.message, "unmatched ]");
    assert_eq!(e.position, at(1, 1));
}

#[test]
fn parse_unmatched_open() {
    let e = parse("+[[]").unwrap_err();
    assert_eq!(e.message, "unmatched [");
    assert_eq!(e.position, at(1, 1));
}

#[test]
fn scenario_increment_twice_and_write() {
    let (v, warnings) = optimize(parse_ok("++."));
    assert!(warnings.is_empty());
    assert_eq!(v.len(), 2);
    assert!(matches!(v[0], Instruction::Increment { amount: 2, offset: 0, .. }));
    assert!(matches!(v[1], Instruction::Write { .. }));
    let (state, warning) = execute(&v, MAX_STEPS);
    assert!(warning.is_none());
    assert_eq!(state.outputs, vec![2]);
    assert_eq!(state.start_instr, None);
}

#[test]
fn scenario_dead_loop_at_start() {
    let (v, warnings) = optimize(parse_ok("[-]"));
    assert!(v.is_empty());
    assert_eq!(warnings.len(), 1);
    assert_eq!(warnings[0].message, "loop is dead");
    assert_eq!(warnings[0].position, Some(at(0, 2)));
}

#[test]
fn scenario_zeroing_loop() {
    let (v, warnings) = optimize(parse_ok("+[-]"));
    assert!(warnings.is_empty());
    assert_eq!(v.len(), 1);
    assert!(matches!(v[0], Instruction::Assign { amount: 0, offset: 0, .. }));
    let (state, warning) = execute(&v, MAX_STEPS);
    assert!(warning.is_none());
    assert_eq!(state.cells, vec![0]);
    assert!(state.outputs.is_empty());
    assert_eq!(state.start_instr, None);
}

#[test]
fn scenario_multiply_move() {
    let (v, _) = optimize(parse_ok("+++[->++<]"));
    assert_eq!(v.len(), 2);
    assert!(matches!(v[0], Instruction::Increment { amount: 3, offset: 0, .. }));
    match &v[1] {
        Instruction::MultiplyMove { changes, .. } => assert_eq!(changes, &vec![(1, 2)]),
        other => panic!("expected a multiply-move, got {:?}", other),
    }
    let (state, warning) = execute(&v, MAX_STEPS);
    assert!(warning.is_none());
    assert_eq!(state.cells, vec![0, 6]);
    assert_eq!(state.start_instr, None);
}

#[test]
fn scenario_loop_may_not_terminate() {
    let (v, warnings) = optimize(parse_ok("+[]"));
    assert_eq!(warnings.len(), 1);
    assert_eq!(warnings[0].message, "loop may not terminate");
    assert_eq!(v.len(), 2);
    assert!(matches!(v[1], Instruction::Loop { .. }));
    let (state, warning) = execute(&v, 1000);
    assert!(warning.is_none());
    assert_eq!(state.start_instr, Some(1));
    assert_eq!(state.cells, vec![1]);
}

#[test]
fn scenario_halts_at_read() {
    let (v, _) = optimize(parse_ok("[>+<-],"));
    let (state, warning) = execute(&v, MAX_STEPS);
    assert!(warning.is_none());
    let i = state.start_instr.unwrap();
    assert!(matches!(v[i], Instruction::Read { .. }));
    assert!(state.outputs.is_empty());
}

#[test]
fn execute_unoptimized_read_is_residual() {
    let v = parse_ok("+.,.");
    let (state, _) = execute(&v, MAX_STEPS);
    assert_eq!(state.start_instr, Some(2));
    assert_eq!(state.outputs, vec![1]);
    assert_eq!(state.cells, vec![1]);
}

#[test]
fn execute_wraps_cells() {
    let v = parse_ok("-.");
    let (state, _) = execute(&v, MAX_STEPS);
    assert_eq!(state.outputs, vec![255]);
}

#[test]
fn execute_pointer_out_of_bounds() {
    let v = parse_ok("+<");
    let (state, warning) = execute(&v, MAX_STEPS);
    let w = warning.unwrap();
    assert_eq!(w.message, "pointer out of bounds at compile time");
    assert_eq!(w.position, Some(at(1, 1)));
    assert_eq!(state.start_instr, Some(1));
    assert_eq!(state.cells, vec![1]);
}

#[test]
fn execute_budget_restores_loop_start() {
    let v = parse_ok("++[>+<-]");
    let (state, warning) = execute(&v, 10);
    assert!(warning.is_none());
    assert_eq!(state.start_instr, Some(2));
    assert_eq!(state.cells, vec![2, 0]);
    assert_eq!(state.cell_ptr, 0);
}

#[test]
fn execute_empty_program() {
    let (state, warning) = execute(&Vec::new(), MAX_STEPS);
    assert!(warning.is_none());
    assert_eq!(state.start_instr, None);
    assert_eq!(state.cells, vec![0]);
}

#[test]
fn bounds_of_moves_and_offsets() {
    assert_eq!(highest_cell_index(&parse_ok("")), 0);
    assert_eq!(highest_cell_index(&parse_ok(">>+<")), 2);
    assert_eq!(highest_cell_index(&parse_ok("<<>")), 1);
    assert_eq!(highest_cell_index(&parse_ok("[>>+<<-]")), 2);
    let v = vec![Instruction::Increment { amount: 1, offset: 5, position: at(0, 0) }];
    assert_eq!(highest_cell_index(&v), 5);
}

#[test]
fn bounds_unbounded_loop() {
    assert_eq!(highest_cell_index(&parse_ok("+[>+]")), MAX_CELL_INDEX);
}

#[test]
fn combine_merges_and_drops() {
    let v = combine_adjacent(&parse_ok("+++>><<-"));
    assert_eq!(v.len(), 1);
    match v[0] {
        Instruction::Increment { amount, offset, position } => {
            assert_eq!((amount, offset), (2, 0));
            assert_eq!(position, at(0, 7));
        }
        ref other => panic!("unexpected {:?}", other),
    }
}

#[test]
fn combine_wraps_increments() {
    let v = vec![
        Instruction::Increment { amount: 127, offset: 0, position: at(0, 0) },
        Instruction::Increment { amount: 2, offset: 0, position: at(1, 1) },
    ];
    let r = combine_adjacent(&v);
    assert!(matches!(r[0], Instruction::Increment { amount: -127, .. }));
}

#[test]
fn multiply_recognition_rejects_unbalanced_body() {
    let v = parse_ok("->+");
    assert!(multiply_move_changes(&v).is_none());
    let w = combine_adjacent(&parse_ok("->+<"));
    assert_eq!(multiply_move_changes(&w), Some(vec![(1, 1)]));
    let z = combine_adjacent(&parse_ok("-->+<"));
    assert!(multiply_move_changes(&z).is_none());
}

#[test]
fn optimize_is_idempotent_on_example() {
    let (a, _) = optimize(parse_ok("+++[->++<]>[-]<[>.<-]"));
    let (b, _) = optimize(parse_ok("+++[->++<]>[-]<[>.<-]"));
    let (c, _) = optimize(b);
    assert!(same_program(&a, &c));
}

#[test]
fn optimize_preserves_output_on_example() {
    let src = "++++++[>++++++++<-]>+.+.";
    let plain = execute(&parse_ok(src), MAX_STEPS).0;
    let (opt, _) = optimize(parse_ok(src));
    let fast = execute(&opt, MAX_STEPS).0;
    assert_eq!(plain.outputs, vec![49, 50]);
    assert_eq!(fast.outputs, plain.outputs);
}

#[test]
fn offset_fusion_moves_pointer_to_end() {
    let v = fuse_offsets_instrs(&parse_ok(">+>-<.>>+"));
    assert_eq!(v.len(), 6);
    assert!(matches!(v[0], Instruction::Increment { amount: 1, offset: 1, .. }));
    assert!(matches!(v[1], Instruction::Increment { amount: -1, offset: 2, .. }));
    assert!(matches!(v[2], Instruction::PointerMove { delta: 1, .. }));
    assert!(matches!(v[3], Instruction::Write { .. }));
    assert!(matches!(v[4], Instruction::Increment { amount: 1, offset: 2, .. }));
    assert!(matches!(v[5], Instruction::PointerMove { delta: 2, .. }));
}

#[test]
fn optimize_fuses_offsets_inside_loops() {
    let (v, _) = optimize(parse_ok("+[>+<-]>."));
    assert_eq!(v.len(), 4);
    match &v[1] {
        Instruction::MultiplyMove { changes, .. } => assert_eq!(changes, &vec![(1, 1)]),
        other => panic!("expected a multiply-move, got {:?}", other),
    }
    let (state, _) = execute(&v, MAX_STEPS);
    assert_eq!(state.outputs, vec![1]);
}

#[test]
fn speculation_resumes_where_it_stopped() {
    let v = parse_ok("+++[>++<-]>.");
    let whole = execute(&v, MAX_STEPS).0;
    let cut = execute(&v, 6).0;
    assert_eq!(whole.outputs, vec![6]);
    assert_eq!(cut.start_instr, Some(3));
    assert_eq!(cut.cells, vec![3, 0]);
    assert!(cut.outputs.is_empty());
}

#[test]
fn bounds_cover_speculative_execution() {
    for src in [">>+<[>+<-]>.", "+[>>+<<-]>>[<+>-]", ">+>+>+<<<[->>>+<<<]"] {
        let (v, _) = optimize(parse_ok(src));
        let (state, warning) = execute(&v, MAX_STEPS);
        assert!(warning.is_none(), "{}", src);
        assert_eq!(state.start_instr, None);
        assert_eq!(state.cells.len(), highest_cell_index(&v) + 1);
    }
}
