use vstd::prelude::*;
use vstd::string::StringSliceAdditionalSpecFns;
use crate::ir::{Instruction, Op, ops_of};
use crate::parser::{parse, balanced, parser_form, render, tokens};
use crate::peephole::{optimize, optimize_rounds, optimize_once, MAX_OPT_ITERATIONS};
use crate::execution::{execute, initial_state, speculate, initial_machine, ExecutionState};
use crate::bounds::spec_highest_cell_index;
use crate::diagnostics::{Info, Level, Warning};

verus! {

/// How much work is done at compile time.
#[derive(Clone, Copy, Debug, PartialEq, Eq, Structural)]
pub enum OptLevel {
    /// Neither the optimizer nor speculative execution.
    Off,
    /// The optimizer only.
    Peephole,
    /// The optimizer, then speculative execution.
    Full,
}

/// The level a user's option names: "0" is `Off`, "2" is `Full`, anything else `Peephole`.
pub fn opt_level_of(option: &str) -> (r: OptLevel)
    ensures
        option@ == "0"@ ==> r == OptLevel::Off,
        option@ == "2"@ ==> r == OptLevel::Full,
        option@ != "0"@ && option@ != "2"@ ==> r == OptLevel::Peephole,
{
    proof {
        reveal_strlit("0");
        reveal_strlit("2");
    }
    if option.unicode_len() == 1 {
        let c = option.get_char(0);
        if c == '0' {
            assert(option@ =~= "0"@);
            return OptLevel::Off;
        } else if c == '2' {
            assert(option@ =~= "2"@);
            return OptLevel::Full;
        }
    }
    OptLevel::Peephole
}

/// The program and state handed to lowering, with the warnings found on the way.
#[derive(Debug)]
pub struct Compiled {
    pub instrs: Vec<Instruction>,
    pub state: ExecutionState,
    pub warnings: Vec<Info>,
}

/// A diagnostic for `filename`, with its source attached.
pub open spec fn about_source(info: Info, level: Level, filename: &str, source: &str) -> bool {
    info.level == level && info.filename@ == filename@ && info.source is Some && info.source->0@ == source@
}

fn warning_info(w: Warning, filename: &str, source: &str) -> (r: Info)
    ensures
        about_source(r, Level::Warning, filename, source),
        r.message@ == w.message@,
        r.position == w.position,
{
    Info {
        level: Level::Warning,
        filename: filename.to_owned(),
        message: w.message,
        position: w.position,
        source: Some(source.to_owned()),
    }
}

/// Compile source text to the program and state handed to lowering: parse it,
/// optimize it unless `level` is `Off`, and run it at compile time within `steps`
/// steps when `level` is `Full`; otherwise the state is the initial one. A parse
/// error is returned as an error diagnostic; warnings come as warning diagnostics.
pub fn compile_source(filename: &str, source: &str, level: OptLevel, steps: u64) -> (r: Result<Compiled, Info>)
    ensures
        r is Ok <==> balanced(source.spec_bytes()),
        r is Err ==> about_source(r->Err_0, Level::Error, filename, source) && r->Err_0.position is Some,
        r is Ok ==> exists|p: Seq<Op>| #![trigger parser_form(p)] parser_form(p) && render(p) == tokens(source.spec_bytes()) && ({
            let c = r->Ok_0;
            let ops = ops_of(c.instrs@);
            &&& (level == OptLevel::Off ==> ops == p)
            &&& (level != OptLevel::Off ==> exists|n: nat| n <= MAX_OPT_ITERATIONS && ops == #[trigger] optimize_rounds(p, n)
                    && (n < MAX_OPT_ITERATIONS ==> optimize_once(ops) == ops))
        }),
        r is Ok ==> ({
            let c = r->Ok_0;
            let ops = ops_of(c.instrs@);
            &&& c.state.wf()
            &&& (level == OptLevel::Full ==> c.state.machine() == speculate(ops, steps as nat).2
                && c.state.start_instr == (match speculate(ops, steps as nat).0 {
                    Some(i) => Some(i as usize),
                    None => None::<usize>,
                }))
            &&& (level != OptLevel::Full ==> c.state.machine() == initial_machine((spec_highest_cell_index(ops) + 1) as nat)
                && c.state.start_instr == (if ops.len() == 0 { None::<usize> } else { Some(0usize) }))
            &&& forall|i: int| 0 <= i < c.warnings@.len() ==> about_source(#[trigger] c.warnings@[i], Level::Warning, filename, source)
        }),
{
    let parsed = match parse(source) {
        Ok(v) => v,
        Err(e) => {
            return Err(Info {
                level: Level::Error,
                filename: filename.to_owned(),
                message: e.message,
                position: Some(e.position),
                source: Some(source.to_owned()),
            });
        },
    };
    let ghost p = ops_of(parsed@);
    let mut found: Vec<Warning> = Vec::new();
    let instrs = if level == OptLevel::Off {
        parsed
    } else {
        let (o, w) = optimize(parsed);
        found = w;
        o
    };
    let (state, spec_warning) = if level == OptLevel::Full {
        execute(&instrs, steps)
    } else {
        (initial_state(&instrs), None)
    };
    match spec_warning {
        Some(w) => found.push(w),
        None => {},
    }
    let mut warnings: Vec<Info> = Vec::new();
    let mut rest = found;
    while rest.len() > 0
        invariant
            forall|i: int| 0 <= i < warnings@.len() ==> about_source(#[trigger] warnings@[i], Level::Warning, filename, source),
        decreases rest@.len(),
    {
        let w = rest.remove(0);
        let info = warning_info(w, filename, source);
        warnings.push(info);
    }
    proof {
        if level == OptLevel::Off {
            assert(ops_of(instrs@) == p);
        }
    }
    Ok(Compiled { instrs, state, warnings })
}

} // verus!
