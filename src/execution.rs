use vstd::prelude::*;
use crate::ir::{Instruction, Op, ops_of, lemma_ops_of};
use crate::bounds::{highest_cell_index, spec_highest_cell_index};
use crate::diagnostics::Warning;

verus! {

broadcast use {vstd::std_specs::vec::group_vec_axioms, vstd::seq::group_seq_axioms};

/// The default number of steps that speculative execution may take.
pub const MAX_STEPS: u64 = 10000000;

/// The tape, head and output of a machine, as mathematical values.
pub ghost struct Machine {
    pub cells: Seq<u8>,
    pub ptr: int,
    pub outputs: Seq<u8>,
}

/// Why running a sequence of instructions stopped.
#[derive(Clone, Copy, Debug, PartialEq, Eq, Structural)]
pub enum Outcome {
    Completed,
    ReachedRead,
    OutOfBounds,
    OutOfSteps,
}

/// Eight-bit wrapping: the value of `x` modulo 256.
pub open spec fn wrap(x: int) -> u8 {
    (x % 256) as u8
}

pub open spec fn in_tape(m: Machine, i: int) -> bool {
    0 <= i < m.cells.len()
}

/// Every cell that a multiply-move at head `ptr` writes lies on the tape.
pub open spec fn changes_in_tape(changes: Seq<(isize, i8)>, ptr: int, len: int) -> bool {
    forall|j: int| 0 <= j < changes.len() ==> 0 <= ptr + (#[trigger] changes[j]).0 < len
}

/// Add `v * factor` to the cell at `ptr + k` for each change `(k, v)`, in order.
pub open spec fn apply_changes(cells: Seq<u8>, ptr: int, changes: Seq<(isize, i8)>, factor: u8) -> Seq<u8>
    decreases changes.len(),
{
    if changes.len() == 0 {
        cells
    } else {
        let c = apply_changes(cells, ptr, changes.drop_last(), factor);
        let i = ptr + changes.last().0;
        c.update(i, wrap(c[i] + changes.last().1 * factor))
    }
}

/// The effect of one instruction other than a loop.
pub open spec fn step(op: Op, m: Machine) -> (Outcome, Machine) {
    match op {
        Op::Increment { amount, offset } => if in_tape(m, m.ptr + offset) {
            (Outcome::Completed, Machine { cells: m.cells.update(m.ptr + offset, wrap(m.cells[m.ptr + offset] + amount)), ..m })
        } else {
            (Outcome::OutOfBounds, m)
        },
        Op::Assign { amount, offset } => if in_tape(m, m.ptr + offset) {
            (Outcome::Completed, Machine { cells: m.cells.update(m.ptr + offset, wrap(amount as int)), ..m })
        } else {
            (Outcome::OutOfBounds, m)
        },
        Op::PointerMove { delta } => if in_tape(m, m.ptr + delta) {
            (Outcome::Completed, Machine { ptr: m.ptr + delta, ..m })
        } else {
            (Outcome::OutOfBounds, m)
        },
        Op::Read => (Outcome::ReachedRead, m),
        Op::Write => (Outcome::Completed, Machine { outputs: m.outputs.push(m.cells[m.ptr]), ..m }),
        Op::MultiplyMove { changes } => if changes_in_tape(changes, m.ptr, m.cells.len() as int) {
            (Outcome::Completed, Machine {
                cells: apply_changes(m.cells, m.ptr, changes, m.cells[m.ptr]).update(m.ptr, 0),
                ..m
            })
        } else {
            (Outcome::OutOfBounds, m)
        },
        Op::Loop { .. } => (Outcome::Completed, m),
    }
}

/// Run a sequence of instructions with `fuel` steps: each instruction visited and
/// each loop test takes one. Returns why it stopped, the machine at that point and the
/// steps left. An instruction that cannot run leaves the machine and the steps as they were.
pub open spec fn run(ops: Seq<Op>, m: Machine, fuel: nat) -> (Outcome, Machine, nat)
    decreases fuel,
{
    if ops.len() == 0 {
        (Outcome::Completed, m, fuel)
    } else if fuel == 0 {
        (Outcome::OutOfSteps, m, 0)
    } else {
        match ops[0] {
            Op::Loop { body } => if m.cells[m.ptr] == 0 {
                run(ops.subrange(1, ops.len() as int), m, (fuel - 1) as nat)
            } else {
                run(body + ops, m, (fuel - 1) as nat)
            },
            _ => {
                let r = step(ops[0], m);
                if r.0 == Outcome::Completed {
                    run(ops.subrange(1, ops.len() as int), r.1, (fuel - 1) as nat)
                } else {
                    (r.0, m, fuel)
                }
            },
        }
    }
}

/// Speculative execution of a program from its instruction `i` on: each top-level
/// instruction runs whole or not at all. Returns the first instruction that did not
/// complete, why, and the machine as it was before that instruction.
pub open spec fn run_top(ops: Seq<Op>, i: int, m: Machine, fuel: nat) -> (Option<int>, Outcome, Machine)
    decreases ops.len() - i,
{
    if i < 0 || i >= ops.len() {
        (None, Outcome::Completed, m)
    } else {
        let r = run(seq![ops[i]], m, fuel);
        if r.0 == Outcome::Completed {
            run_top(ops, i + 1, r.1, r.2)
        } else {
            (Some(i), r.0, m)
        }
    }
}

/// Speculative execution of a whole program with `fuel` steps, on a zeroed tape
/// of as many cells as the bounds analysis allows for.
pub open spec fn speculate(ops: Seq<Op>, fuel: nat) -> (Option<int>, Outcome, Machine) {
    run_top(ops, 0, initial_machine((spec_highest_cell_index(ops) + 1) as nat), fuel)
}

/// A zeroed tape of `n` cells, the head at cell 0, nothing written.
pub open spec fn initial_machine(n: nat) -> Machine {
    Machine { cells: Seq::new(n, |i: int| 0u8), ptr: 0, outputs: Seq::empty() }
}

pub proof fn lemma_run_fuel(ops: Seq<Op>, m: Machine, fuel: nat)
    ensures
        run(ops, m, fuel).2 <= fuel,
    decreases fuel,
{
    if ops.len() > 0 && fuel > 0 {
        match ops[0] {
            Op::Loop { body } => {
                lemma_run_fuel(ops.subrange(1, ops.len() as int), m, (fuel - 1) as nat);
                lemma_run_fuel(body + ops, m, (fuel - 1) as nat);
            },
            _ => {
                lemma_run_fuel(ops.subrange(1, ops.len() as int), step(ops[0], m).1, (fuel - 1) as nat);
            },
        }
    }
}

/// Running `a` then `b` is running `a`, and then `b` where `a` completed.
pub proof fn lemma_run_append(a: Seq<Op>, b: Seq<Op>, m: Machine, fuel: nat)
    ensures
        run(a + b, m, fuel) == ({
            let r = run(a, m, fuel);
            if r.0 == Outcome::Completed { run(b, r.1, r.2) } else { r }
        }),
    decreases fuel,
{
    if a.len() == 0 {
        assert(a + b =~= b);
    } else if fuel > 0 {
        let ab = a + b;
        assert(ab[0] == a[0]);
        assert(ab.subrange(1, ab.len() as int) =~= a.subrange(1, a.len() as int) + b);
        match a[0] {
            Op::Loop { body } => {
                if m.cells[m.ptr] == 0 {
                    lemma_run_append(a.subrange(1, a.len() as int), b, m, (fuel - 1) as nat);
                } else {
                    assert(body + ab =~= (body + a) + b);
                    lemma_run_append(body + a, b, m, (fuel - 1) as nat);
                }
            },
            _ => {
                lemma_run_append(a.subrange(1, a.len() as int), b, step(a[0], m).1, (fuel - 1) as nat);
            },
        }
    }
}

/// The state of speculative execution. `start_instr` is the index of the first
/// top-level instruction left to run, or `None` when the whole program ran.
#[derive(Debug)]
pub struct ExecutionState {
    pub start_instr: Option<usize>,
    pub cells: Vec<u8>,
    pub cell_ptr: usize,
    pub outputs: Vec<u8>,
}

impl ExecutionState {
    pub open spec fn machine(&self) -> Machine {
        Machine { cells: self.cells@, ptr: self.cell_ptr as int, outputs: self.outputs@ }
    }

    pub open spec fn wf(&self) -> bool {
        self.cell_ptr < self.cells@.len()
    }
}

fn copy_bytes(v: &Vec<u8>) -> (r: Vec<u8>)
    ensures
        r@ == v@,
{
    let mut r: Vec<u8> = Vec::new();
    let mut i: usize = 0;
    while i < v.len()
        invariant
            i <= v@.len(),
            r@ == v@.subrange(0, i as int),
        decreases v@.len() - i,
    {
        r.push(v[i]);
        i = i + 1;
    }
    assert(v@.subrange(0, i as int) =~= v@);
    r
}

fn add_wrapping(c: u8, a: i8) -> (r: u8)
    ensures
        r == wrap(c + a),
{
    let t: i16 = c as i16 + a as i16;
    if t < 0 {
        (t + 256) as u8
    } else if t > 255 {
        (t - 256) as u8
    } else {
        t as u8
    }
}

fn multiply_add_wrapping(c: u8, v: i8, f: u8) -> (r: u8)
    ensures
        r == wrap(c + v * f),
{
    assert(-32640 <= (v as int) * (f as int) <= 32385) by (nonlinear_arith)
        requires
            -128 <= v <= 127,
            0 <= f <= 255,
    ;
    let prod: i32 = (v as i32) * (f as i32);
    let t: i32 = c as i32 + prod;
    let u: u32 = (t + 32768) as u32;
    assert((t + 32768) % 256 == t % 256);
    (u % 256) as u8
}

/// The cell index `ptr + offset`, where it lies on a tape of `len` cells.
fn tape_index(ptr: usize, offset: isize, len: usize) -> (r: Option<usize>)
    ensures
        r is Some <==> 0 <= ptr + offset < len,
        r is Some ==> r->0 == ptr + offset,
{
    let t: i128 = ptr as i128 + offset as i128;
    if t < 0 || t >= len as i128 {
        None
    } else {
        Some(t as usize)
    }
}

fn multiply_move(changes: &Vec<(isize, i8)>, st: &mut ExecutionState) -> (o: Outcome)
    requires
        old(st).wf(),
    ensures
        final(st).wf(),
        final(st).start_instr == old(st).start_instr,
        (o, final(st).machine()) == step(Op::MultiplyMove { changes: changes@ }, old(st).machine()),
{
    let len = st.cells.len();
    let mut j: usize = 0;
    while j < changes.len()
        invariant
            j <= changes@.len(),
            len == st.cells@.len(),
            *st == *old(st),
            st.wf(),
            forall|k: int| 0 <= k < j ==> 0 <= st.cell_ptr + (#[trigger] changes@[k]).0 < len,
        decreases changes@.len() - j,
    {
        if tape_index(st.cell_ptr, changes[j].0, len).is_none() {
            return Outcome::OutOfBounds;
        }
        j = j + 1;
    }
    let ghost m0 = st.machine();
    let factor = st.cells[st.cell_ptr];
    let mut i: usize = 0;
    while i < changes.len()
        invariant
            i <= changes@.len(),
            changes_in_tape(changes@, m0.ptr, m0.cells.len() as int),
            st.cell_ptr == m0.ptr,
            st.outputs@ == m0.outputs,
            st.start_instr == old(st).start_instr,
            m0 == old(st).machine(),
            old(st).wf(),
            len == m0.cells.len(),
            0 <= m0.ptr < m0.cells.len(),
            factor == m0.cells[m0.ptr],
            st.cells@ == apply_changes(m0.cells, m0.ptr, changes@.subrange(0, i as int), factor),
            st.cells@.len() == m0.cells.len(),
        decreases changes@.len() - i,
    {
        assert(changes@.subrange(0, i + 1).drop_last() =~= changes@.subrange(0, i as int));
        assert(0 <= st.cell_ptr + changes@[i as int].0 < len);
        let idx = (st.cell_ptr as i128 + changes[i].0 as i128) as usize;
        let w = multiply_add_wrapping(st.cells[idx], changes[i].1, factor);
        st.cells.set(idx, w);
        i = i + 1;
    }
    assert(changes@.subrange(0, i as int) =~= changes@);
    let p = st.cell_ptr;
    st.cells.set(p, 0);
    Outcome::Completed
}

/// Run one instruction other than a loop.
fn run_simple(instr: &Instruction, st: &mut ExecutionState) -> (o: Outcome)
    requires
        old(st).wf(),
        !(instr.op() is Loop),
    ensures
        final(st).wf(),
        final(st).start_instr == old(st).start_instr,
        (o, final(st).machine()) == step(instr.op(), old(st).machine()),
{
    match instr {
        Instruction::Increment { amount, offset, .. } => match tape_index(st.cell_ptr, *offset, st.cells.len()) {
            Some(i) => {
                let w = add_wrapping(st.cells[i], *amount);
                st.cells.set(i, w);
                Outcome::Completed
            },
            None => Outcome::OutOfBounds,
        },
        Instruction::Assign { amount, offset, .. } => match tape_index(st.cell_ptr, *offset, st.cells.len()) {
            Some(i) => {
                let w = add_wrapping(0, *amount);
                st.cells.set(i, w);
                Outcome::Completed
            },
            None => Outcome::OutOfBounds,
        },
        Instruction::PointerMove { delta, .. } => match tape_index(st.cell_ptr, *delta, st.cells.len()) {
            Some(i) => {
                st.cell_ptr = i;
                Outcome::Completed
            },
            None => Outcome::OutOfBounds,
        },
        Instruction::Read { .. } => Outcome::ReachedRead,
        Instruction::Write { .. } => {
            let c = st.cells[st.cell_ptr];
            st.outputs.push(c);
            Outcome::Completed
        },
        Instruction::MultiplyMove { changes, .. } => multiply_move(changes, st),
        Instruction::Loop { .. } => Outcome::Completed,
    }
}

/// Run a loop with body `body` within the step budget `fuel`.
fn run_loop(body: &Vec<Instruction>, st: &mut ExecutionState, fuel: &mut u64) -> (o: Outcome)
    requires
        old(st).wf(),
    ensures
        final(st).wf(),
        final(st).start_instr == old(st).start_instr,
        (o, final(st).machine(), *final(fuel) as nat)
            == run(seq![Op::Loop { body: ops_of(body@) }], old(st).machine(), *old(fuel) as nat),
    decreases body, 2nat,
{
    let ghost body_ops = ops_of(body@);
    let ghost ops = seq![Op::Loop { body: body_ops }];
    assert(ops.len() == 1 && ops[0] == Op::Loop { body: body_ops });
    assert(ops.subrange(1, ops.len() as int) =~= Seq::<Op>::empty());
    loop
        invariant
            st.wf(),
            st.start_instr == old(st).start_instr,
            ops.len() == 1 && ops[0] == (Op::Loop { body: body_ops }),
            ops.subrange(1, ops.len() as int) =~= Seq::<Op>::empty(),
            run(ops, old(st).machine(), *old(fuel) as nat) == run(ops, st.machine(), *fuel as nat),
            ops == seq![Op::Loop { body: body_ops }],
            body_ops == ops_of(body@),
        decreases *fuel,
    {
        if *fuel == 0 {
            return Outcome::OutOfSteps;
        }
        let ghost f0 = *fuel as nat;
        *fuel = *fuel - 1;
        if st.cells[st.cell_ptr] == 0 {
            assert(run(ops, st.machine(), f0) == run(Seq::<Op>::empty(), st.machine(), (f0 - 1) as nat));
            return Outcome::Completed;
        }
        assert(run(ops, st.machine(), f0) == run(body_ops + ops, st.machine(), (f0 - 1) as nat));
        let ghost m = st.machine();
        let ghost f = *fuel as nat;
        proof {
            lemma_run_append(body_ops, ops, m, f);
            lemma_run_fuel(body_ops, m, f);
        }
        let o = run_body(body, st, fuel);
        if o != Outcome::Completed {
            return o;
        }
    }
}

/// Run one instruction within the step budget `fuel`.
fn run_instr(instr: &Instruction, st: &mut ExecutionState, fuel: &mut u64) -> (o: Outcome)
    requires
        old(st).wf(),
    ensures
        final(st).wf(),
        final(st).start_instr == old(st).start_instr,
        (o, final(st).machine(), *final(fuel) as nat) == run(seq![instr.op()], old(st).machine(), *old(fuel) as nat),
    decreases instr, 0nat,
{
    let ghost ops = seq![instr.op()];
    assert(ops.len() == 1 && ops[0] == instr.op());
    match instr {
        Instruction::Loop { body, .. } => {
            assert(instr.op() == Op::Loop { body: ops_of(body@) });
            let ghost m = st.machine();
            let ghost f = *fuel as nat;
            let o = run_loop(body, st, fuel);
            assert(ops == seq![Op::Loop { body: ops_of(body@) }]);
            assert((o, st.machine(), *fuel as nat) == run(ops, m, f));
            assert(m == old(st).machine());
            assert(f == *old(fuel) as nat);
            o
        },
        _ => {
            if *fuel == 0 {
                return Outcome::OutOfSteps;
            }
            let ghost m = st.machine();
            let o = run_simple(instr, st);
            if o == Outcome::Completed {
                *fuel = *fuel - 1;
                assert(ops.subrange(1, ops.len() as int) =~= Seq::<Op>::empty());
                assert(run(Seq::<Op>::empty(), st.machine(), *fuel as nat) == (o, st.machine(), *fuel as nat));
            }
            o
        },
    }
}

/// Run a sequence of instructions within the step budget `fuel`.
fn run_body(v: &Vec<Instruction>, st: &mut ExecutionState, fuel: &mut u64) -> (o: Outcome)
    requires
        old(st).wf(),
    ensures
        final(st).wf(),
        final(st).start_instr == old(st).start_instr,
        (o, final(st).machine(), *final(fuel) as nat) == run(ops_of(v@), old(st).machine(), *old(fuel) as nat),
    decreases v, 1nat,
{
    let ghost ops = ops_of(v@);
    proof {
        lemma_ops_of(v@);
        assert(ops.subrange(0, ops.len() as int) =~= ops);
    }
    let mut i: usize = 0;
    while i < v.len()
        invariant
            i <= v@.len(),
            ops == ops_of(v@),
            ops.len() == v@.len(),
            forall|j: int| 0 <= j < v@.len() ==> #[trigger] ops[j] == v@[j].op(),
            st.wf(),
            st.start_instr == old(st).start_instr,
            run(ops, old(st).machine(), *old(fuel) as nat)
                == run(ops.subrange(i as int, ops.len() as int), st.machine(), *fuel as nat),
        decreases v@.len() - i,
    {
        let ghost rest = ops.subrange(i as int, ops.len() as int);
        proof {
            assert(rest =~= seq![ops[i as int]] + ops.subrange(i + 1, ops.len() as int));
            lemma_run_append(seq![ops[i as int]], ops.subrange(i + 1, ops.len() as int), st.machine(), *fuel as nat);
        }
        let o = run_instr(&v[i], st, fuel);
        if o != Outcome::Completed {
            return o;
        }
        i = i + 1;
    }
    Outcome::Completed
}

/// Run `instrs` at compile time on a zeroed tape of `highest_cell_index + 1` cells,
/// within `steps` steps. The state holds the tape, head and output after the
/// top-level instructions that ran whole, and the index of the first one that did
/// not. A warning comes where execution left the tape.
pub fn execute(instrs: &Vec<Instruction>, steps: u64) -> (r: (ExecutionState, Option<Warning>))
    ensures
        r.0.start_instr == (match speculate(ops_of(instrs@), steps as nat).0 {
            Some(i) => Some(i as usize),
            None => None::<usize>,
        }),
        r.0.machine() == speculate(ops_of(instrs@), steps as nat).2,
        r.0.wf(),
        r.1 is Some <==> speculate(ops_of(instrs@), steps as nat).1 == Outcome::OutOfBounds,
        r.1 is Some ==> r.1->0.message@ == "pointer out of bounds at compile time"@,
        r.1 is Some ==> r.0.start_instr is Some && r.1->0.position == Some(instrs@[r.0.start_instr->0 as int].pos()),
{
    let n = highest_cell_index(instrs) + 1;
    let mut cells: Vec<u8> = Vec::new();
    let mut k: usize = 0;
    while k < n
        invariant
            k <= n,
            cells@ == Seq::new(k as nat, |i: int| 0u8),
        decreases n - k,
    {
        cells.push(0);
        k = k + 1;
    }
    let mut st = ExecutionState { start_instr: None, cells, cell_ptr: 0, outputs: Vec::new() };
    let mut fuel = steps;
    let ghost ops = ops_of(instrs@);
    let ghost m0 = st.machine();
    proof {
        lemma_ops_of(instrs@);
        assert(m0.cells =~= initial_machine(n as nat).cells);
        assert(m0.outputs =~= initial_machine(n as nat).outputs);
        assert(m0 == initial_machine(n as nat));
        assert(speculate(ops, steps as nat) == run_top(ops, 0, m0, steps as nat));
    }
    let mut i: usize = 0;
    while i < instrs.len()
        invariant
            i <= instrs@.len(),
            ops == ops_of(instrs@),
            ops.len() == instrs@.len(),
            forall|j: int| 0 <= j < instrs@.len() ==> #[trigger] ops[j] == instrs@[j].op(),
            st.wf(),
            st.start_instr is None,
            speculate(ops, steps as nat) == run_top(ops, i as int, st.machine(), fuel as nat),
        decreases instrs@.len() - i,
    {
        let saved_cells = copy_bytes(&st.cells);
        let saved_outputs = copy_bytes(&st.outputs);
        let saved_ptr = st.cell_ptr;
        let ghost m = st.machine();
        let ghost f = fuel as nat;
        assert(ops[i as int] == instrs@[i as int].op());
        let o = run_instr(&instrs[i], &mut st, &mut fuel);
        if o != Outcome::Completed {
            st.cells = saved_cells;
            st.outputs = saved_outputs;
            st.cell_ptr = saved_ptr;
            st.start_instr = Some(i);
            let warning = if o == Outcome::OutOfBounds {
                Some(Warning {
                    message: String::from_str("pointer out of bounds at compile time"),
                    position: Some(instrs[i].position()),
                })
            } else {
                None
            };
            proof {
                reveal_strlit("pointer out of bounds at compile time");
                assert(st.machine() == m);
                assert(run_top(ops, i as int, m, f) == (Some(i as int), o, m));
            }
            return (st, warning);
        }
        assert(run_top(ops, i as int, m, f) == run_top(ops, i + 1, st.machine(), fuel as nat));
        i = i + 1;
    }
    assert(run_top(ops, i as int, st.machine(), fuel as nat) == (None::<int>, Outcome::Completed, st.machine()));
    (st, None)
}

/// Soundness of speculative execution from instruction `i` on: the instructions
/// before the residual entry run to completion from `m` and leave exactly the state
/// returned, with `f` steps left; and running the rest of the program from `m` is
/// the same as running the residual program from that state. With no residual
/// entry, the whole rest completes in that state.
pub proof fn lemma_run_top_sound(ops: Seq<Op>, i: int, m: Machine, fuel: nat) -> (f: nat)
    requires
        0 <= i <= ops.len(),
    ensures
        ({
            let t = run_top(ops, i, m, fuel);
            match t.0 {
                Some(k) => i <= k < ops.len()
                    && run(ops.subrange(i, k), m, fuel) == (Outcome::Completed, t.2, f)
                    && run(ops.subrange(i, ops.len() as int), m, fuel) == run(ops.subrange(k, ops.len() as int), t.2, f),
                None => run(ops.subrange(i, ops.len() as int), m, fuel) == (Outcome::Completed, t.2, f),
            }
        }),
    decreases ops.len() - i,
{
    if i == ops.len() {
        assert(ops.subrange(i, ops.len() as int) =~= Seq::<Op>::empty());
        fuel
    } else {
        let r = run(seq![ops[i]], m, fuel);
        assert(ops.subrange(i, ops.len() as int) =~= seq![ops[i]] + ops.subrange(i + 1, ops.len() as int));
        lemma_run_append(seq![ops[i]], ops.subrange(i + 1, ops.len() as int), m, fuel);
        if r.0 == Outcome::Completed {
            let f = lemma_run_top_sound(ops, i + 1, r.1, r.2);
            let t = run_top(ops, i, m, fuel);
            if t.0 is Some {
                let k = t.0->0;
                assert(ops.subrange(i, k) =~= seq![ops[i]] + ops.subrange(i + 1, k));
                lemma_run_append(seq![ops[i]], ops.subrange(i + 1, k), m, fuel);
            }
            f
        } else {
            assert(ops.subrange(i, i) =~= Seq::<Op>::empty());
            fuel
        }
    }
}

/// Speculative execution is sound: running the whole program on the zeroed tape is
/// the same as running the residual program, from its entry on, on the state that
/// `speculate` returns (with the steps left); with no residual program, the whole
/// program completes in that state, its output included.
pub proof fn lemma_speculate_sound(ops: Seq<Op>, fuel: nat) -> (f: nat)
    ensures
        ({
            let t = speculate(ops, fuel);
            let m0 = initial_machine((spec_highest_cell_index(ops) + 1) as nat);
            match t.0 {
                Some(k) => 0 <= k < ops.len()
                    && run(ops, m0, fuel) == run(ops.subrange(k, ops.len() as int), t.2, f),
                None => run(ops, m0, fuel) == (Outcome::Completed, t.2, f),
            }
        }),
{
    let m0 = initial_machine((spec_highest_cell_index(ops) + 1) as nat);
    assert(ops.subrange(0, ops.len() as int) =~= ops);
    lemma_run_top_sound(ops, 0, m0, fuel)
}

/// The state from which a program runs when nothing is executed at compile time:
/// a zeroed tape of `highest_cell_index + 1` cells, the head at cell 0, nothing
/// written, and the entry at the first instruction (`None` for an empty program).
pub fn initial_state(instrs: &Vec<Instruction>) -> (r: ExecutionState)
    ensures
        r.machine() == initial_machine((spec_highest_cell_index(ops_of(instrs@)) + 1) as nat),
        r.wf(),
        r.start_instr == (if instrs@.len() == 0 { None::<usize> } else { Some(0usize) }),
{
    let n = highest_cell_index(instrs) + 1;
    let mut cells: Vec<u8> = Vec::new();
    let mut k: usize = 0;
    while k < n
        invariant
            k <= n,
            cells@ == Seq::new(k as nat, |i: int| 0u8),
        decreases n - k,
    {
        cells.push(0);
        k = k + 1;
    }
    let st = ExecutionState {
        start_instr: if instrs.len() == 0 { None } else { Some(0) },
        cells,
        cell_ptr: 0,
        outputs: Vec::new(),
    };
    assert(st.machine().cells =~= initial_machine(n as nat).cells);
    assert(st.machine().outputs =~= initial_machine(n as nat).outputs);
    st
}

} // verus!
