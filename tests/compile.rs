use bfc::bounds::highest_cell_index;
use bfc::compile::{compile_source, opt_level_of, OptLevel};
use bfc::diagnostics::Level;
use bfc::execution::MAX_STEPS;
use bfc::ir::{Instruction, Position};
use bfc::parser::parse;

#[test]
fn opt_levels_from_option() {
    assert_eq!(opt_level_of("0"), OptLevel::Off);
    assert_eq!(opt_level_of("1"), OptLevel::Peephole);
    assert_eq!(opt_level_of("2"), OptLevel::Full);
    assert_eq!(opt_level_of("20"), OptLevel::Peephole);
    assert_eq!(opt_level_of(""), OptLevel::Peephole);
}

#[test]
fn compile_reports_parse_error() {
    let e = compile_source("x.bf", "+]", OptLevel::Full, MAX_STEPS).unwrap_err();
    assert_eq!(e.level, Level::Error);
    assert_eq!(e.filename, "x.bf");
    assert_eq!(e.message, "unmatched ]");
    assert_eq!(e.position, Some(Position { start: 1, end: 1 }));
    assert_eq!(e.source, Some("+]".to_owned()));
}

#[test]
fn compile_level_off_keeps_parse() {
    let c = compile_source("x.bf", "++.", OptLevel::Off, MAX_STEPS).unwrap();
    assert_eq!(c.instrs.len(), 3);
    assert_eq!(c.state.start_instr, Some(0));
    assert_eq!(c.state.cells, vec![0]);
    assert!(c.state.outputs.is_empty());
}

#[test]
fn compile_level_peephole_skips_execution() {
    let c = compile_source("x.bf", "++.", OptLevel::Peephole, MAX_STEPS).unwrap();
    assert_eq!(c.instrs.len(), 2);
    assert_eq!(c.state.start_instr, Some(0));
    assert!(c.state.outputs.is_empty());
}

#[test]
fn compile_full_runs_program() {
    let c = compile_source("x.bf", "++.", OptLevel::Full, MAX_STEPS).unwrap();
    assert_eq!(c.state.outputs, vec![2]);
    assert_eq!(c.state.start_instr, None);
    assert!(matches!(c.instrs[0], Instruction::Increment { amount: 2, offset: 0, position } if position == Position { start: 0, end: 1 }));
    assert!(matches!(c.instrs[1], Instruction::Write { position } if position == Position { start: 2, end: 2 }));
}

#[test]
fn compile_warnings_become_diagnostics() {
    let c = compile_source("d.bf", "[-]", OptLevel::Full, MAX_STEPS).unwrap();
    assert!(c.instrs.is_empty());
    assert_eq!(c.warnings.len(), 1);
    let w = &c.warnings[0];
    assert_eq!(w.level, Level::Warning);
    assert_eq!(w.filename, "d.bf");
    assert_eq!(w.message, "loop is dead");
    assert_eq!(w.position, Some(Position { start: 0, end: 2 }));
    assert_eq!(w.source, Some("[-]".to_owned()));
}

#[test]
fn compile_empty_program_at_level_off() {
    let c = compile_source("e.bf", "no code here", OptLevel::Off, MAX_STEPS).unwrap();
    assert!(c.instrs.is_empty());
    assert_eq!(c.state.start_instr, None);
}

#[test]
fn bounds_exact_beyond_former_cap() {
    let src = format!("{}+", ">".repeat(70000));
    let v = parse(&src).unwrap();
    assert_eq!(highest_cell_index(&v), 70000);
}
