use vstd::prelude::*;
use crate::ir::{Instruction, Op, ops_of, lemma_ops_of};

verus! {

broadcast use {vstd::std_specs::vec::group_vec_axioms, vstd::seq::group_seq_axioms};

/// The index reported for a program whose reach is not bounded statically: one
/// with a loop that moves the head, or one that reaches beyond `MAX_REACH`.
pub const MAX_CELL_INDEX: usize = 65535;

/// The farthest cell index that the analysis reports exactly.
pub const MAX_REACH: usize = 0x3FFF_FFFF;

/// One past `MAX_REACH`: the analysis saturates here.
pub open spec fn over() -> int {
    MAX_REACH as int + 1
}

/// Clamp an index into `0..=over()`.
pub open spec fn sat(x: int) -> int {
    if x < 0 {
        0
    } else if x > over() {
        over()
    } else {
        x
    }
}

pub open spec fn max_int(a: int, b: int) -> int {
    if a >= b { a } else { b }
}

/// The sum of the head moves made directly by a sequence (not inside its loops).
pub open spec fn net_move(ops: Seq<Op>) -> int
    decreases ops.len(),
{
    if ops.len() == 0 {
        0
    } else {
        net_move(ops.drop_last()) + match ops.last() {
            Op::PointerMove { delta } => delta as int,
            _ => 0,
        }
    }
}

/// Highest index among `pos + k` for the keys `k` of `changes`, and `hi`.
pub open spec fn reach_changes(changes: Seq<(isize, i8)>, pos: int, hi: int) -> int
    decreases changes.len(),
{
    if changes.len() == 0 {
        hi
    } else {
        max_int(reach_changes(changes.drop_last(), pos, hi), sat(pos + changes.last().0))
    }
}

/// The head position and the highest index reached after one instruction,
/// starting with the head at `pos` and `hi` reached so far.
pub open spec fn reach_op(op: Op, pos: int, hi: int) -> (int, int)
    decreases op,
{
    match op {
        Op::Increment { offset, .. } => (pos, max_int(hi, sat(pos + offset))),
        Op::Assign { offset, .. } => (pos, max_int(hi, sat(pos + offset))),
        Op::PointerMove { delta } => (sat(pos + delta), max_int(hi, sat(pos + delta))),
        Op::MultiplyMove { changes } => (pos, reach_changes(changes, pos, hi)),
        Op::Loop { body } => if net_move(body) != 0 {
            (pos, over())
        } else {
            (pos, reach(body, pos, hi).1)
        },
        _ => (pos, hi),
    }
}

/// `reach_op` over a sequence of instructions.
pub open spec fn reach(ops: Seq<Op>, pos: int, hi: int) -> (int, int)
    decreases ops,
{
    if ops.len() == 0 {
        (pos, hi)
    } else {
        let r = reach_op(ops[0], pos, hi);
        reach(ops.subrange(1, ops.len() as int), r.0, r.1)
    }
}

/// The result of the analysis on a program whose head starts at cell 0.
pub open spec fn spec_highest_cell_index(ops: Seq<Op>) -> int {
    let h = reach(ops, 0, 0).1;
    if h > MAX_REACH { MAX_CELL_INDEX as int } else { h }
}

proof fn lemma_reach_skip(ops: Seq<Op>, i: int, pos: int, hi: int)
    requires
        0 <= i < ops.len(),
    ensures
        reach(ops.subrange(i, ops.len() as int), pos, hi) == ({
            let r = reach_op(ops[i], pos, hi);
            reach(ops.subrange(i + 1, ops.len() as int), r.0, r.1)
        }),
{
    let s = ops.subrange(i, ops.len() as int);
    assert(s[0] == ops[i]);
    assert(s.subrange(1, s.len() as int) =~= ops.subrange(i + 1, ops.len() as int));
}

proof fn lemma_reach_bounds(ops: Seq<Op>, pos: int, hi: int)
    requires
        0 <= pos <= over(),
        0 <= hi <= over(),
    ensures
        0 <= reach(ops, pos, hi).0 <= over(),
        hi <= reach(ops, pos, hi).1 <= over(),
    decreases ops,
{
    if ops.len() > 0 {
        lemma_reach_op_bounds(ops[0], pos, hi);
        let r = reach_op(ops[0], pos, hi);
        lemma_reach_bounds(ops.subrange(1, ops.len() as int), r.0, r.1);
    }
}

proof fn lemma_reach_changes_bounds(changes: Seq<(isize, i8)>, pos: int, hi: int)
    requires
        0 <= hi <= over(),
    ensures
        hi <= reach_changes(changes, pos, hi) <= over(),
    decreases changes.len(),
{
    if changes.len() > 0 {
        lemma_reach_changes_bounds(changes.drop_last(), pos, hi);
    }
}

proof fn lemma_reach_op_bounds(op: Op, pos: int, hi: int)
    requires
        0 <= pos <= over(),
        0 <= hi <= over(),
    ensures
        0 <= reach_op(op, pos, hi).0 <= over(),
        hi <= reach_op(op, pos, hi).1 <= over(),
    decreases op,
{
    match op {
        Op::Loop { body } => {
            lemma_reach_bounds(body, pos, hi);
        },
        Op::MultiplyMove { changes } => {
            lemma_reach_changes_bounds(changes, pos, hi);
        },
        _ => {},
    }
}

fn sat_add(pos: usize, d: isize) -> (r: usize)
    requires
        pos <= over(),
    ensures
        r == sat(pos + d),
{
    let t: i128 = pos as i128 + d as i128;
    if t < 0 {
        0
    } else if t > 0x4000_0000 {
        0x4000_0000
    } else {
        t as usize
    }
}

pub(crate) fn net_move_of(body: &Vec<Instruction>) -> (r: i128)
    ensures
        r == net_move(ops_of(body@)),
{
    let mut sum: i128 = 0;
    let mut i: usize = 0;
    proof {
        lemma_ops_of(body@);
    }
    while i < body.len()
        invariant
            i <= body@.len(),
            ops_of(body@).len() == body@.len(),
            forall|j: int| 0 <= j < body@.len() ==> #[trigger] ops_of(body@)[j] == body@[j].op(),
            sum == net_move(ops_of(body@).subrange(0, i as int)),
            -(i as int) * 0x8000_0000_0000_0000 <= sum <= (i as int) * 0x8000_0000_0000_0000,
        decreases body@.len() - i,
    {
        let ops = Ghost(ops_of(body@));
        assert(ops@.subrange(0, i + 1).drop_last() =~= ops@.subrange(0, i as int));
        match &body[i] {
            Instruction::PointerMove { delta, .. } => {
                sum = sum + *delta as i128;
            },
            _ => {},
        }
        i = i + 1;
    }
    assert(ops_of(body@).subrange(0, i as int) =~= ops_of(body@));
    sum
}

fn reach_changes_of(changes: &Vec<(isize, i8)>, pos: usize, hi: usize) -> (r: usize)
    requires
        pos <= over(),
        hi <= over(),
    ensures
        r == reach_changes(changes@, pos as int, hi as int),
{
    let mut h = hi;
    let mut i: usize = 0;
    while i < changes.len()
        invariant
            i <= changes@.len(),
            pos <= over(),
            hi <= over(),
            h == reach_changes(changes@.subrange(0, i as int), pos as int, hi as int),
            h <= over(),
        decreases changes@.len() - i,
    {
        assert(changes@.subrange(0, i + 1).drop_last() =~= changes@.subrange(0, i as int));
        let t = sat_add(pos, changes[i].0);
        if t > h {
            h = t;
        }
        i = i + 1;
    }
    assert(changes@.subrange(0, i as int) =~= changes@);
    h
}

fn reach_instr(instr: &Instruction, pos: usize, hi: usize) -> (r: (usize, usize))
    requires
        pos <= over(),
        hi <= over(),
    ensures
        (r.0 as int, r.1 as int) == reach_op(instr.op(), pos as int, hi as int),
    decreases instr,
{
    proof {
        lemma_reach_op_bounds(instr.op(), pos as int, hi as int);
    }
    match instr {
        Instruction::Increment { offset, .. } | Instruction::Assign { offset, .. } => {
            let t = sat_add(pos, *offset);
            (pos, if t > hi { t } else { hi })
        },
        Instruction::PointerMove { delta, .. } => {
            let t = sat_add(pos, *delta);
            (t, if t > hi { t } else { hi })
        },
        Instruction::MultiplyMove { changes, .. } => (pos, reach_changes_of(changes, pos, hi)),
        Instruction::Loop { body, .. } => {
            if net_move_of(body) != 0 {
                (pos, 0x4000_0000)
            } else {
                let r = reach_all(body, pos, hi);
                (pos, r.1)
            }
        },
        _ => (pos, hi),
    }
}

fn reach_all(v: &Vec<Instruction>, pos: usize, hi: usize) -> (r: (usize, usize))
    requires
        pos <= over(),
        hi <= over(),
    ensures
        (r.0 as int, r.1 as int) == reach(ops_of(v@), pos as int, hi as int),
    decreases v,
{
    let ghost ops = ops_of(v@);
    proof {
        lemma_ops_of(v@);
        assert(ops.subrange(0, ops.len() as int) =~= ops);
    }
    let mut p = pos;
    let mut h = hi;
    let mut i: usize = 0;
    while i < v.len()
        invariant
            i <= v@.len(),
            ops == ops_of(v@),
            ops.len() == v@.len(),
            forall|j: int| 0 <= j < v@.len() ==> #[trigger] ops[j] == v@[j].op(),
            p <= over(),
            h <= over(),
            reach(ops, pos as int, hi as int) == reach(ops.subrange(i as int, ops.len() as int), p as int, h as int),
        decreases v@.len() - i,
    {
        proof {
            lemma_reach_skip(ops, i as int, p as int, h as int);
            lemma_reach_op_bounds(ops[i as int], p as int, h as int);
        }
        let r = reach_instr(&v[i], p, h);
        p = r.0;
        h = r.1;
        i = i + 1;
    }
    proof {
        assert(ops.subrange(i as int, ops.len() as int).len() == 0);
    }
    (p, h)
}

/// An upper bound on the cell indices that the program can reach, its head
/// starting at cell 0; a program whose reach is not bounded gets `MAX_CELL_INDEX`.
pub fn highest_cell_index(instrs: &Vec<Instruction>) -> (r: usize)
    ensures
        r == spec_highest_cell_index(ops_of(instrs@)),
        r <= MAX_REACH,
{
    let r = reach_all(instrs, 0, 0);
    if r.1 > MAX_REACH {
        MAX_CELL_INDEX
    } else {
        r.1
    }
}

} // verus!
