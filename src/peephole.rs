use vstd::prelude::*;
use crate::ir::{Instruction, Op, Position, ops_of, lemma_ops_of, lemma_ops_of_push};
use crate::diagnostics::Warning;
use crate::bounds::net_move;
use crate::execution::{Machine, Outcome, step, wrap, run, apply_changes, changes_in_tape, lemma_run_append, lemma_run_fuel};

verus! {

broadcast use {vstd::std_specs::vec::group_vec_axioms, vstd::seq::group_seq_axioms};

/// Eight-bit wrapping addition.
pub open spec fn add8(a: i8, b: i8) -> i8 {
    let s = a as int + b as int;
    (if s > 127 { s - 256 } else if s < -128 { s + 256 } else { s }) as i8
}

fn add_i8(a: i8, b: i8) -> (r: i8)
    ensures
        r == add8(a, b),
{
    let s: i16 = a as i16 + b as i16;
    if s > 127 {
        (s - 256) as i8
    } else if s < -128 {
        (s + 256) as i8
    } else {
        s as i8
    }
}

/// The single instruction that `a` followed by `b` can be fused into, if any.
pub open spec fn fuse(a: Op, b: Op) -> Option<Op> {
    match (a, b) {
        (Op::Increment { amount: x, offset: o }, Op::Increment { amount: y, offset: p }) => if o == p {
            Some(Op::Increment { amount: add8(x, y), offset: o })
        } else {
            None
        },
        (Op::PointerMove { delta: x }, Op::PointerMove { delta: y }) => if isize::MIN <= x + y <= isize::MAX {
            Some(Op::PointerMove { delta: (x + y) as isize })
        } else {
            None
        },
        (Op::Assign { offset: o, .. }, Op::Assign { amount: v, offset: p }) => if o == p {
            Some(Op::Assign { amount: v, offset: o })
        } else {
            None
        },
        (Op::Increment { offset: o, .. }, Op::Assign { amount: v, offset: p }) => if o == p {
            Some(Op::Assign { amount: v, offset: o })
        } else {
            None
        },
        (Op::Assign { amount: v, offset: o }, Op::Increment { amount: x, offset: p }) => if o == p {
            Some(Op::Assign { amount: add8(v, x), offset: o })
        } else {
            None
        },
        (Op::Assign { offset: o, .. }, Op::Read) => if o == 0 {
            Some(Op::Read)
        } else {
            None
        },
        _ => None,
    }
}

/// An instruction that does nothing: a move by zero or an increment by zero.
pub open spec fn is_noop(op: Op) -> bool {
    match op {
        Op::PointerMove { delta } => delta == 0,
        Op::Increment { amount, .. } => amount == 0,
        _ => false,
    }
}

/// Append `x` to the already combined `r`, fusing it with the last instruction
/// where possible and dropping what does nothing.
pub open spec fn push_fused(r: Seq<Op>, x: Op) -> Seq<Op> {
    if r.len() > 0 && fuse(r.last(), x) is Some {
        let y = fuse(r.last(), x)->0;
        if is_noop(y) { r.drop_last() } else { r.drop_last().push(y) }
    } else if is_noop(x) {
        r
    } else {
        r.push(x)
    }
}

/// Combine adjacent instructions (increments, moves, sets, a set before a read)
/// left to right, inside loop bodies too.
pub open spec fn combine(ops: Seq<Op>) -> Seq<Op>
    decreases ops,
{
    if ops.len() == 0 {
        Seq::empty()
    } else {
        push_fused(combine(ops.drop_last()), combine_within(ops.last()))
    }
}

/// `combine` applied inside an instruction's loop body.
pub open spec fn combine_within(op: Op) -> Op
    decreases op,
{
    match op {
        Op::Loop { body } => Op::Loop { body: combine(body) },
        _ => op,
    }
}

fn fuse_instr(a: &Instruction, b: &Instruction) -> (r: Option<Instruction>)
    ensures
        r is Some <==> fuse(a.op(), b.op()) is Some,
        r is Some ==> r->0.op() == fuse(a.op(), b.op())->0,
        r is Some ==> r->0.pos() == a.pos().merged(b.pos()),
{
    let p = a.position().merge(b.position());
    match (a, b) {
        (Instruction::Increment { amount: x, offset: o, .. }, Instruction::Increment { amount: y, offset: q, .. }) => {
            if *o == *q {
                Some(Instruction::Increment { amount: add_i8(*x, *y), offset: *o, position: p })
            } else {
                None
            }
        },
        (Instruction::PointerMove { delta: x, .. }, Instruction::PointerMove { delta: y, .. }) => {
            match x.checked_add(*y) {
                Some(d) => Some(Instruction::PointerMove { delta: d, position: p }),
                None => None,
            }
        },
        (Instruction::Assign { offset: o, .. }, Instruction::Assign { amount: v, offset: q, .. }) => {
            if *o == *q {
                Some(Instruction::Assign { amount: *v, offset: *o, position: p })
            } else {
                None
            }
        },
        (Instruction::Increment { offset: o, .. }, Instruction::Assign { amount: v, offset: q, .. }) => {
            if *o == *q {
                Some(Instruction::Assign { amount: *v, offset: *o, position: p })
            } else {
                None
            }
        },
        (Instruction::Assign { amount: v, offset: o, .. }, Instruction::Increment { amount: x, offset: q, .. }) => {
            if *o == *q {
                Some(Instruction::Assign { amount: add_i8(*v, *x), offset: *o, position: p })
            } else {
                None
            }
        },
        (Instruction::Assign { offset: o, .. }, Instruction::Read { .. }) => {
            if *o == 0 {
                Some(Instruction::Read { position: p })
            } else {
                None
            }
        },
        _ => None,
    }
}

fn is_noop_instr(x: &Instruction) -> (r: bool)
    ensures
        r == is_noop(x.op()),
{
    match x {
        Instruction::PointerMove { delta, .. } => *delta == 0,
        Instruction::Increment { amount, .. } => *amount == 0,
        _ => false,
    }
}

fn push_fused_instr(r: &mut Vec<Instruction>, x: Instruction)
    ensures
        ops_of(final(r)@) == push_fused(ops_of(old(r)@), x.op()),
{
    proof {
        lemma_ops_of(old(r)@);
    }
    let n = r.len();
    if n > 0 {
        match fuse_instr(&r[n - 1], &x) {
            Some(y) => {
                proof {
                    assert(old(r)@.drop_last() =~= old(r)@.subrange(0, n - 1));
                    assert(ops_of(old(r)@) == ops_of(old(r)@.drop_last()).push(old(r)@.last().op()));
                    assert(ops_of(old(r)@).drop_last() =~= ops_of(old(r)@.drop_last()));
                }
                r.pop();
                if !is_noop_instr(&y) {
                    proof {
                        lemma_ops_of_push(r@, y);
                    }
                    r.push(y);
                }
                return;
            },
            None => {},
        }
    }
    if !is_noop_instr(&x) {
        proof {
            lemma_ops_of_push(r@, x);
        }
        r.push(x);
    }
}

proof fn lemma_combine_step(ops: Seq<Op>, i: int)
    requires
        0 <= i < ops.len(),
    ensures
        combine(ops.subrange(0, i + 1)) == push_fused(combine(ops.subrange(0, i)), combine_within(ops[i])),
{
    assert(ops.subrange(0, i + 1).drop_last() =~= ops.subrange(0, i));
}

/// Combine adjacent instructions throughout `instrs`.
pub fn combine_adjacent(instrs: &Vec<Instruction>) -> (r: Vec<Instruction>)
    ensures
        ops_of(r@) == combine(ops_of(instrs@)),
    decreases instrs,
{
    let ghost ops = ops_of(instrs@);
    proof {
        lemma_ops_of(instrs@);
        assert(ops.subrange(0, 0) =~= Seq::<Op>::empty());
    }
    let mut r: Vec<Instruction> = Vec::new();
    let mut i: usize = 0;
    while i < instrs.len()
        invariant
            i <= instrs@.len(),
            ops == ops_of(instrs@),
            ops.len() == instrs@.len(),
            forall|j: int| 0 <= j < instrs@.len() ==> #[trigger] ops[j] == instrs@[j].op(),
            ops_of(r@) == combine(ops.subrange(0, i as int)),
        decreases instrs@.len() - i,
    {
        proof {
            lemma_combine_step(ops, i as int);
        }
        let x = match &instrs[i] {
            Instruction::Loop { body, position } => {
                let b = combine_adjacent(body);
                Instruction::Loop { body: b, position: *position }
            },
            other => other.duplicate(),
        };
        push_fused_instr(&mut r, x);
        i = i + 1;
    }
    proof {
        assert(ops.subrange(0, i as int) =~= ops);
    }
    r
}

/// Add `v` to the entry of key `k` (the last one with that key), or append `(k, v)`.
pub open spec fn add_change(c: Seq<(isize, i8)>, k: isize, v: i8) -> Seq<(isize, i8)>
    decreases c.len(),
{
    if !(exists|j: int| 0 <= j < c.len() && c[j].0 == k) {
        c.push((k, v))
    } else if c.len() == 0 {
        c
    } else if c.last().0 == k {
        c.drop_last().push((k, add8(c.last().1, v)))
    } else {
        add_change(c.drop_last(), k, v).push(c.last())
    }
}

/// The value of the last entry with key `k`, or 0.
pub open spec fn value_of(c: Seq<(isize, i8)>, k: isize) -> i8
    decreases c.len(),
{
    if c.len() == 0 {
        0
    } else if c.last().0 == k {
        c.last().1
    } else {
        value_of(c.drop_last(), k)
    }
}

/// The entries whose key is not `k`.
pub open spec fn without_key(c: Seq<(isize, i8)>, k: isize) -> Seq<(isize, i8)>
    decreases c.len(),
{
    if c.len() == 0 {
        Seq::empty()
    } else if c.last().0 == k {
        without_key(c.drop_last(), k)
    } else {
        without_key(c.drop_last(), k).push(c.last())
    }
}

/// For a body of increments and moves only: the total added at each cell offset
/// (relative to the head on entry), in order of first use. `None` for any other body.
pub open spec fn scan(ops: Seq<Op>) -> Option<Seq<(isize, i8)>>
    decreases ops.len(),
{
    if ops.len() == 0 {
        Some(Seq::empty())
    } else {
        match scan(ops.drop_last()) {
            None => None,
            Some(c) => match ops.last() {
                Op::PointerMove { .. } => Some(c),
                Op::Increment { amount, offset } => {
                    let k = net_move(ops.drop_last()) + offset;
                    if isize::MIN <= k <= isize::MAX {
                        Some(add_change(c, k as isize, amount))
                    } else {
                        None
                    }
                },
                _ => None,
            },
        }
    }
}

/// The changes of the multiply-move that a loop with this body performs: its body
/// only increments and moves, moves the head back where it started, and takes
/// exactly one from the head cell. `None` for every other body.
pub open spec fn multiply_changes(body: Seq<Op>) -> Option<Seq<(isize, i8)>> {
    match scan(body) {
        Some(c) => if net_move(body) == 0 && value_of(c, 0) == -1 && without_key(c, 0).len() > 0 {
            Some(without_key(c, 0))
        } else {
            None
        },
        None => None,
    }
}

/// A loop whose body only adds an odd amount to the head cell: it zeroes that cell.
pub open spec fn is_zeroing(body: Seq<Op>) -> bool {
    body.len() == 1 && (body[0] matches Op::Increment { amount, offset } && offset == 0 && amount % 2 != 0)
}

/// What a loop with the (already simplified) body becomes.
pub open spec fn rewrite_loop(body: Seq<Op>) -> Op {
    if is_zeroing(body) {
        Op::Assign { amount: 0, offset: 0 }
    } else if multiply_changes(body) is Some {
        Op::MultiplyMove { changes: multiply_changes(body)->0 }
    } else {
        Op::Loop { body }
    }
}

/// Rewrite zeroing loops and multiply loops, innermost first.
pub open spec fn simplify(ops: Seq<Op>) -> Seq<Op>
    decreases ops,
{
    if ops.len() == 0 {
        Seq::empty()
    } else {
        simplify(ops.drop_last()).push(simplify_op(ops.last()))
    }
}

pub open spec fn simplify_op(op: Op) -> Op
    decreases op,
{
    match op {
        Op::Loop { body } => rewrite_loop(simplify(body)),
        _ => op,
    }
}

/// Index of the last entry with key `k`.
fn find_key(c: &Vec<(isize, i8)>, k: isize) -> (r: Option<usize>)
    ensures
        r is None ==> forall|j: int| 0 <= j < c@.len() ==> c@[j].0 != k,
        r is Some ==> r->0 < c@.len() && c@[r->0 as int].0 == k
            && forall|j: int| r->0 < j < c@.len() ==> c@[j].0 != k,
{
    let mut i: usize = c.len();
    while i > 0
        invariant
            i <= c@.len(),
            forall|j: int| i <= j < c@.len() ==> c@[j].0 != k,
        decreases i,
    {
        if c[i - 1].0 == k {
            return Some(i - 1);
        }
        i = i - 1;
    }
    None
}

proof fn lemma_add_change_found(c: Seq<(isize, i8)>, k: isize, v: i8, idx: int)
    requires
        0 <= idx < c.len(),
        c[idx].0 == k,
        forall|j: int| idx < j < c.len() ==> c[j].0 != k,
    ensures
        add_change(c, k, v) == c.update(idx, (k, add8(c[idx].1, v))),
    decreases c.len(),
{
    assert(exists|j: int| 0 <= j < c.len() && c[j].0 == k);
    if c.last().0 == k {
        assert(idx == c.len() - 1);
        assert(c.drop_last().push((k, add8(c.last().1, v))) =~= c.update(idx, (k, add8(c[idx].1, v))));
    } else {
        assert(c.drop_last()[idx].0 == k);
        lemma_add_change_found(c.drop_last(), k, v, idx);
        assert(c.drop_last().update(idx, (k, add8(c[idx].1, v))).push(c.last()) =~= c.update(idx, (k, add8(c[idx].1, v))));
    }
}

proof fn lemma_add_change_new(c: Seq<(isize, i8)>, k: isize, v: i8)
    requires
        forall|j: int| 0 <= j < c.len() ==> c[j].0 != k,
    ensures
        add_change(c, k, v) == c.push((k, v)),
{
}

proof fn lemma_scan_none(ops: Seq<Op>, i: int)
    requires
        0 <= i <= ops.len(),
        scan(ops.subrange(0, i)) is None,
    ensures
        scan(ops) is None,
    decreases ops.len(),
{
    if i == ops.len() {
        assert(ops.subrange(0, i) =~= ops);
    } else {
        assert(ops.drop_last().subrange(0, i) =~= ops.subrange(0, i));
        lemma_scan_none(ops.drop_last(), i);
    }
}

fn scan_body(body: &Vec<Instruction>) -> (r: Option<Vec<(isize, i8)>>)
    ensures
        r is None <==> scan(ops_of(body@)) is None,
        r is Some ==> r->0@ == scan(ops_of(body@))->0,
{
    let ghost ops = ops_of(body@);
    proof {
        lemma_ops_of(body@);
    }
    let mut c: Vec<(isize, i8)> = Vec::new();
    let mut pos: i128 = 0;
    let mut i: usize = 0;
    while i < body.len()
        invariant
            i <= body@.len(),
            ops == ops_of(body@),
            ops.len() == body@.len(),
            forall|j: int| 0 <= j < body@.len() ==> #[trigger] ops[j] == body@[j].op(),
            scan(ops.subrange(0, i as int)) == Some(c@),
            pos == net_move(ops.subrange(0, i as int)),
            -(i as int) * 0x8000_0000_0000_0000 <= pos <= (i as int) * 0x8000_0000_0000_0000,
        decreases body@.len() - i,
    {
        let ghost pre = ops.subrange(0, i as int);
        proof {
            assert(ops.subrange(0, i + 1).drop_last() =~= pre);
            assert(ops.subrange(0, i + 1).last() == body@[i as int].op());
        }
        match &body[i] {
            Instruction::PointerMove { delta, .. } => {
                pos = pos + *delta as i128;
            },
            Instruction::Increment { amount, offset, .. } => {
                let k: i128 = pos + *offset as i128;
                if k < isize::MIN as i128 || k > isize::MAX as i128 {
                    proof {
                        lemma_scan_none(ops, i + 1);
                    }
                    return None;
                }
                let key = k as isize;
                match find_key(&c, key) {
                    Some(idx) => {
                        proof {
                            lemma_add_change_found(c@, key, *amount, idx as int);
                        }
                        let old_v = c[idx].1;
                        c.set(idx, (key, add_i8(old_v, *amount)));
                    },
                    None => {
                        proof {
                            lemma_add_change_new(c@, key, *amount);
                        }
                        c.push((key, *amount));
                    },
                }
            },
            _ => {
                proof {
                    lemma_scan_none(ops, i + 1);
                }
                return None;
            },
        }
        i = i + 1;
    }
    proof {
        assert(ops.subrange(0, i as int) =~= ops);
    }
    Some(c)
}

fn value_of_key(c: &Vec<(isize, i8)>, k: isize) -> (r: i8)
    ensures
        r == value_of(c@, k),
{
    let mut i: usize = c.len();
    proof {
        assert(c@.subrange(0, c@.len() as int) =~= c@);
    }
    while i > 0
        invariant
            i <= c@.len(),
            value_of(c@, k) == value_of(c@.subrange(0, i as int), k),
        decreases i,
    {
        assert(c@.subrange(0, i as int).drop_last() =~= c@.subrange(0, i - 1));
        if c[i - 1].0 == k {
            return c[i - 1].1;
        }
        i = i - 1;
    }
    0
}

fn remove_key(c: &Vec<(isize, i8)>, k: isize) -> (r: Vec<(isize, i8)>)
    ensures
        r@ == without_key(c@, k),
{
    let mut r: Vec<(isize, i8)> = Vec::new();
    let mut i: usize = 0;
    while i < c.len()
        invariant
            i <= c@.len(),
            r@ == without_key(c@.subrange(0, i as int), k),
        decreases c@.len() - i,
    {
        assert(c@.subrange(0, i + 1).drop_last() =~= c@.subrange(0, i as int));
        if c[i].0 != k {
            r.push(c[i]);
        }
        i = i + 1;
    }
    assert(c@.subrange(0, i as int) =~= c@);
    r
}

/// The changes of the multiply-move that a loop with this body performs, if it is one.
pub fn multiply_move_changes(body: &Vec<Instruction>) -> (r: Option<Vec<(isize, i8)>>)
    ensures
        r is None <==> multiply_changes(ops_of(body@)) is None,
        r is Some ==> r->0@ == multiply_changes(ops_of(body@))->0,
{
    match scan_body(body) {
        None => None,
        Some(c) => {
            let net = crate::bounds::net_move_of(body);
            if net == 0 && value_of_key(&c, 0) == -1 {
                let rest = remove_key(&c, 0);
                if rest.len() > 0 {
                    Some(rest)
                } else {
                    None
                }
            } else {
                None
            }
        },
    }
}

/// A loop that may never end: its body is empty, or only adds an even amount to the head cell.
pub open spec fn may_not_terminate(body: Seq<Op>) -> bool {
    body.len() == 0 || (body.len() == 1
        && (body[0] matches Op::Increment { amount, offset } && offset == 0 && amount % 2 == 0))
}

fn may_not_terminate_instrs(body: &Vec<Instruction>) -> (r: bool)
    ensures
        r == may_not_terminate(ops_of(body@)),
{
    proof {
        lemma_ops_of(body@);
    }
    if body.len() == 0 {
        true
    } else if body.len() == 1 {
        match &body[0] {
            Instruction::Increment { amount, offset, .. } => *offset == 0 && *amount % 2 == 0,
            _ => false,
        }
    } else {
        false
    }
}

fn is_zeroing_instrs(body: &Vec<Instruction>) -> (r: bool)
    ensures
        r == is_zeroing(ops_of(body@)),
{
    proof {
        lemma_ops_of(body@);
    }
    if body.len() == 1 {
        match &body[0] {
            Instruction::Increment { amount, offset, .. } => *offset == 0 && *amount % 2 != 0,
            _ => false,
        }
    } else {
        false
    }
}

/// A loop whose simplified body may never let it end: one that is warned about.
pub open spec fn warns_nonterminating(op: Op) -> bool {
    op is Loop && may_not_terminate(simplify(op->Loop_body))
}

/// Rewrite zeroing loops to a set and multiply loops to a multiply-move, innermost
/// first. A loop that may never end is kept, with a warning.
pub fn simplify_loops(instrs: &Vec<Instruction>, warnings: &mut Vec<Warning>) -> (r: Vec<Instruction>)
    ensures
        ops_of(r@) == simplify(ops_of(instrs@)),
        extends(old(warnings)@, final(warnings)@),
        forall|j: int| 0 <= j < instrs@.len() && warns_nonterminating(#[trigger] instrs@[j].op())
            ==> has_warning(final(warnings)@, "loop may not terminate"@, instrs@[j].pos()),
    decreases instrs,
{
    proof {
        reveal_strlit("loop may not terminate");
    }
    let ghost ops = ops_of(instrs@);
    proof {
        lemma_ops_of(instrs@);
        assert(ops.subrange(0, 0) =~= Seq::<Op>::empty());
    }
    let mut r: Vec<Instruction> = Vec::new();
    let mut i: usize = 0;
    while i < instrs.len()
        invariant
            i <= instrs@.len(),
            ops == ops_of(instrs@),
            ops.len() == instrs@.len(),
            forall|j: int| 0 <= j < instrs@.len() ==> #[trigger] ops[j] == instrs@[j].op(),
            ops_of(r@) == simplify(ops.subrange(0, i as int)),
            extends(old(warnings)@, warnings@),
            forall|j: int| 0 <= j < i && warns_nonterminating(#[trigger] instrs@[j].op())
                ==> has_warning(warnings@, "loop may not terminate"@, instrs@[j].pos()),
        decreases instrs@.len() - i,
    {
        proof {
            assert(ops.subrange(0, i + 1).drop_last() =~= ops.subrange(0, i as int));
            assert(ops.subrange(0, i + 1).last() == ops[i as int]);
        }
        let ghost before = warnings@;
        let x = match &instrs[i] {
            Instruction::Loop { body, position } => {
                assert(simplify_op(ops[i as int]) == rewrite_loop(simplify(ops_of(body@))));
                let b = simplify_loops(body, warnings);
                let ghost mid = warnings@;
                if may_not_terminate_instrs(&b) {
                    warn(warnings, "loop may not terminate", *position);
                }
                proof {
                    lemma_extends(before, mid, warnings@);
                }
                if is_zeroing_instrs(&b) {
                    Instruction::Assign { amount: 0, offset: 0, position: *position }
                } else {
                    match multiply_move_changes(&b) {
                        Some(changes) => Instruction::MultiplyMove { changes, position: *position },
                        None => {
                            Instruction::Loop { body: b, position: *position }
                        },
                    }
                }
            },
            other => other.duplicate(),
        };
        proof {
            lemma_ops_of_push(r@, x);
            lemma_extends(old(warnings)@, before, warnings@);
            assert forall|j: int| 0 <= j < i + 1 && warns_nonterminating(#[trigger] instrs@[j].op())
                implies has_warning(warnings@, "loop may not terminate"@, instrs@[j].pos()) by {
                if j < i {
                    assert(has_warning(before, "loop may not terminate"@, instrs@[j].pos()));
                }
            }
        }
        r.push(x);
        i = i + 1;
    }
    proof {
        assert(ops.subrange(0, i as int) =~= ops);
    }
    r
}

/// An instruction after which the head cell is certainly zero.
pub open spec fn zeroes_head(op: Op) -> bool {
    match op {
        Op::Assign { amount, offset } => amount == 0 && offset == 0,
        Op::Loop { .. } => true,
        Op::MultiplyMove { .. } => true,
        _ => false,
    }
}

/// Drop every loop that is entered with the head cell zero: one right after an
/// instruction that zeroes the head, or, where `at_start`, one before anything else.
pub open spec fn remove_dead(ops: Seq<Op>, at_start: bool) -> Seq<Op>
    decreases ops,
{
    if ops.len() == 0 {
        Seq::empty()
    } else {
        let r = remove_dead(ops.drop_last(), at_start);
        let x = remove_dead_within(ops.last());
        if x is Loop && ((r.len() == 0 && at_start) || (r.len() > 0 && zeroes_head(r.last()))) {
            r
        } else {
            r.push(x)
        }
    }
}

pub open spec fn remove_dead_within(op: Op) -> Op
    decreases op,
{
    match op {
        Op::Loop { body } => Op::Loop { body: remove_dead(body, false) },
        _ => op,
    }
}

fn zeroes_head_instr(x: &Instruction) -> (r: bool)
    ensures
        r == zeroes_head(x.op()),
{
    match x {
        Instruction::Assign { amount, offset, .. } => *amount == 0 && *offset == 0,
        Instruction::Loop { .. } => true,
        Instruction::MultiplyMove { .. } => true,
        _ => false,
    }
}

/// `ws` holds a warning with this message at this position.
pub open spec fn has_warning(ws: Seq<Warning>, message: Seq<char>, position: Position) -> bool {
    exists|i: int| 0 <= i < ws.len() && (#[trigger] ws[i]).message@ == message && ws[i].position == Some(position)
}

/// `new` keeps every warning of `old`, in place, and may add more after them.
pub open spec fn extends(old: Seq<Warning>, new: Seq<Warning>) -> bool {
    old.len() <= new.len() && forall|i: int| 0 <= i < old.len() ==> #[trigger] new[i] == old[i]
}

/// Add a warning, unless the same one is already recorded.
fn warn(warnings: &mut Vec<Warning>, message: &str, position: Position)
    ensures
        extends(old(warnings)@, final(warnings)@),
        has_warning(final(warnings)@, message@, position),
        has_warning(old(warnings)@, message@, position) ==> final(warnings)@ == old(warnings)@,
        !has_warning(old(warnings)@, message@, position) ==> final(warnings)@.len() == old(warnings)@.len() + 1,
{
    let m = message.to_owned();
    let mut i: usize = 0;
    while i < warnings.len()
        invariant
            i <= warnings@.len(),
            m@ == message@,
            forall|j: int| 0 <= j < i ==> !((#[trigger] warnings@[j]).message@ == message@ && warnings@[j].position == Some(position)),
        decreases warnings@.len() - i,
    {
        if warnings[i].position == Some(position) && warnings[i].message == m {
            return;
        }
        i = i + 1;
    }
    warnings.push(Warning { message: m, position: Some(position) });
    assert(warnings@[warnings@.len() - 1].message@ == message@);
}

proof fn lemma_extends(a: Seq<Warning>, b: Seq<Warning>, c: Seq<Warning>)
    requires
        extends(a, b),
        extends(b, c),
    ensures
        extends(a, c),
        forall|m: Seq<char>, p: Position| has_warning(b, m, p) ==> #[trigger] has_warning(c, m, p),
{
    assert forall|m: Seq<char>, p: Position| has_warning(b, m, p) implies #[trigger] has_warning(c, m, p) by {
        let i = choose|i: int| 0 <= i < b.len() && (#[trigger] b[i]).message@ == m && b[i].position == Some(p);
        assert(c[i] == b[i]);
    }
}

/// The loop at `j` is one that `remove_dead` drops.
pub open spec fn dead_at(ops: Seq<Op>, j: int, at_start: bool) -> bool {
    let r = remove_dead(ops.subrange(0, j), at_start);
    ops[j] is Loop && ((r.len() == 0 && at_start) || (r.len() > 0 && zeroes_head(r.last())))
}

/// Remove dead loops (see `remove_dead`), with a warning for each.
pub fn remove_dead_loops(instrs: &Vec<Instruction>, at_start: bool, warnings: &mut Vec<Warning>) -> (r: Vec<Instruction>)
    ensures
        ops_of(r@) == remove_dead(ops_of(instrs@), at_start),
        extends(old(warnings)@, final(warnings)@),
        forall|j: int| 0 <= j < instrs@.len() && dead_at(ops_of(instrs@), j, at_start)
            ==> has_warning(final(warnings)@, "loop is dead"@, #[trigger] instrs@[j].pos()),
    decreases instrs,
{
    proof {
        reveal_strlit("loop is dead");
    }
    let ghost ops = ops_of(instrs@);
    proof {
        lemma_ops_of(instrs@);
        assert(ops.subrange(0, 0) =~= Seq::<Op>::empty());
    }
    let mut r: Vec<Instruction> = Vec::new();
    let mut i: usize = 0;
    while i < instrs.len()
        invariant
            i <= instrs@.len(),
            ops == ops_of(instrs@),
            ops.len() == instrs@.len(),
            forall|j: int| 0 <= j < instrs@.len() ==> #[trigger] ops[j] == instrs@[j].op(),
            ops_of(r@) == remove_dead(ops.subrange(0, i as int), at_start),
            extends(old(warnings)@, warnings@),
            forall|j: int| 0 <= j < i && dead_at(ops, j, at_start)
                ==> has_warning(warnings@, "loop is dead"@, #[trigger] instrs@[j].pos()),
        decreases instrs@.len() - i,
    {
        proof {
            assert(ops.subrange(0, i + 1).drop_last() =~= ops.subrange(0, i as int));
            assert(ops.subrange(0, i + 1).last() == ops[i as int]);
            lemma_ops_of(r@);
        }
        let ghost before = warnings@;
        let ghost r_before = r@;
        match &instrs[i] {
            Instruction::Loop { body, position } => {
                assert(remove_dead_within(ops[i as int]) == Op::Loop { body: remove_dead(ops_of(body@), false) });
                let n = r.len();
                let dead = if n == 0 { at_start } else { zeroes_head_instr(&r[n - 1]) };
                if dead {
                    warn(warnings, "loop is dead", *position);
                } else {
                    let b = remove_dead_loops(body, false, warnings);
                    let x = Instruction::Loop { body: b, position: *position };
                    proof {
                        lemma_ops_of_push(r@, x);
                    }
                    r.push(x);
                }
            },
            other => {
                let x = other.duplicate();
                proof {
                    lemma_ops_of_push(r@, x);
                }
                r.push(x);
            },
        }
        proof {
            lemma_extends(old(warnings)@, before, warnings@);
            lemma_ops_of(r_before);
            assert forall|j: int| 0 <= j < i + 1 && dead_at(ops, j, at_start)
                implies has_warning(warnings@, "loop is dead"@, #[trigger] instrs@[j].pos()) by {
                if j < i {
                    assert(has_warning(before, "loop is dead"@, instrs@[j].pos()));
                }
            }
        }
        i = i + 1;
    }
    proof {
        assert(ops.subrange(0, i as int) =~= ops);
    }
    r
}

fn same_changes(a: &Vec<(isize, i8)>, b: &Vec<(isize, i8)>) -> (r: bool)
    ensures
        r == (a@ == b@),
{
    if a.len() != b.len() {
        return false;
    }
    let mut i: usize = 0;
    while i < a.len()
        invariant
            i <= a@.len() == b@.len(),
            forall|j: int| 0 <= j < i ==> a@[j] == b@[j],
        decreases a@.len() - i,
    {
        if a[i].0 != b[i].0 || a[i].1 != b[i].1 {
            return false;
        }
        i = i + 1;
    }
    assert(a@ =~= b@);
    true
}

fn same_instr(a: &Instruction, b: &Instruction) -> (r: bool)
    ensures
        r == (a.op() == b.op()),
    decreases a,
{
    match (a, b) {
        (Instruction::Increment { amount: x, offset: o, .. }, Instruction::Increment { amount: y, offset: p, .. }) => *x == *y && *o == *p,
        (Instruction::PointerMove { delta: x, .. }, Instruction::PointerMove { delta: y, .. }) => *x == *y,
        (Instruction::Read { .. }, Instruction::Read { .. }) => true,
        (Instruction::Write { .. }, Instruction::Write { .. }) => true,
        (Instruction::Assign { amount: x, offset: o, .. }, Instruction::Assign { amount: y, offset: p, .. }) => *x == *y && *o == *p,
        (Instruction::Loop { body: x, .. }, Instruction::Loop { body: y, .. }) => same_program(x, y),
        (Instruction::MultiplyMove { changes: x, .. }, Instruction::MultiplyMove { changes: y, .. }) => same_changes(x, y),
        _ => false,
    }
}

/// Whether two programs have the same instructions, positions aside.
pub fn same_program(a: &Vec<Instruction>, b: &Vec<Instruction>) -> (r: bool)
    ensures
        r == (ops_of(a@) == ops_of(b@)),
    decreases a,
{
    proof {
        lemma_ops_of(a@);
        lemma_ops_of(b@);
    }
    if a.len() != b.len() {
        return false;
    }
    let mut i: usize = 0;
    while i < a.len()
        invariant
            i <= a@.len() == b@.len(),
            ops_of(a@).len() == a@.len(),
            ops_of(b@).len() == b@.len(),
            forall|j: int| 0 <= j < a@.len() ==> #[trigger] ops_of(a@)[j] == a@[j].op(),
            forall|j: int| 0 <= j < b@.len() ==> #[trigger] ops_of(b@)[j] == b@[j].op(),
            forall|j: int| 0 <= j < i ==> ops_of(a@)[j] == ops_of(b@)[j],
        decreases a@.len() - i,
    {
        if !same_instr(&a[i], &b[i]) {
            assert(ops_of(a@)[i as int] != ops_of(b@)[i as int]);
            return false;
        }
        i = i + 1;
    }
    assert(ops_of(a@) =~= ops_of(b@));
    true
}

pub open spec fn fits_isize(x: int) -> bool {
    isize::MIN <= x <= isize::MAX
}

/// `out` followed by a move of `delta`, where it is not zero.
pub open spec fn flush(out: Seq<Op>, delta: int) -> Seq<Op> {
    if delta == 0 { out } else { out.push(Op::PointerMove { delta: delta as isize }) }
}

/// One step of offset fusion: `st` holds what was written and the head move not yet
/// written. Increments and sets take the pending move into their offset; moves add
/// to it; anything else writes it out first.
pub open spec fn fuse_offset_step(st: (Seq<Op>, int), x: Op) -> (Seq<Op>, int) {
    let out = st.0;
    let d = st.1;
    match x {
        Op::Increment { amount, offset } => if fits_isize(d + offset) {
            (out.push(Op::Increment { amount, offset: (d + offset) as isize }), d)
        } else {
            (flush(out, d).push(x), 0)
        },
        Op::Assign { amount, offset } => if fits_isize(d + offset) {
            (out.push(Op::Assign { amount, offset: (d + offset) as isize }), d)
        } else {
            (flush(out, d).push(x), 0)
        },
        Op::PointerMove { delta } => if fits_isize(d + delta) {
            (out, d + delta)
        } else {
            (flush(out, d), delta as int)
        },
        _ => (flush(out, d).push(x), 0),
    }
}

pub open spec fn fuse_offsets_run(ops: Seq<Op>) -> (Seq<Op>, int)
    decreases ops,
{
    if ops.len() == 0 {
        (Seq::empty(), 0)
    } else {
        fuse_offset_step(fuse_offsets_run(ops.drop_last()), fuse_offsets_within(ops.last()))
    }
}

pub open spec fn fuse_offsets_within(op: Op) -> Op
    decreases op,
{
    match op {
        Op::Loop { body } => Op::Loop { body: flush(fuse_offsets_run(body).0, fuse_offsets_run(body).1) },
        _ => op,
    }
}

/// Offset fusion: within each run of increments, sets and moves, give each increment
/// and set the offset of the cell it touches and make the moves one move at the end.
pub open spec fn fuse_offsets(ops: Seq<Op>) -> Seq<Op> {
    flush(fuse_offsets_run(ops).0, fuse_offsets_run(ops).1)
}

fn flush_instr(out: &mut Vec<Instruction>, delta: isize, position: Position)
    ensures
        ops_of(final(out)@) == flush(ops_of(old(out)@), delta as int),
{
    if delta != 0 {
        let x = Instruction::PointerMove { delta, position };
        proof {
            lemma_ops_of_push(out@, x);
        }
        out.push(x);
    }
}

/// Apply offset fusion (see `fuse_offsets`) throughout `instrs`.
pub fn fuse_offsets_instrs(instrs: &Vec<Instruction>) -> (r: Vec<Instruction>)
    ensures
        ops_of(r@) == fuse_offsets(ops_of(instrs@)),
    decreases instrs,
{
    let ghost ops = ops_of(instrs@);
    proof {
        lemma_ops_of(instrs@);
        assert(ops.subrange(0, 0) =~= Seq::<Op>::empty());
    }
    let mut out: Vec<Instruction> = Vec::new();
    let mut delta: isize = 0;
    let mut move_pos: Position = Position { start: 0, end: 0 };
    let mut i: usize = 0;
    while i < instrs.len()
        invariant
            i <= instrs@.len(),
            ops == ops_of(instrs@),
            ops.len() == instrs@.len(),
            forall|j: int| 0 <= j < instrs@.len() ==> #[trigger] ops[j] == instrs@[j].op(),
            fuse_offsets_run(ops.subrange(0, i as int)) == (ops_of(out@), delta as int),
        decreases instrs@.len() - i,
    {
        proof {
            assert(ops.subrange(0, i + 1).drop_last() =~= ops.subrange(0, i as int));
            assert(ops.subrange(0, i + 1).last() == ops[i as int]);
        }
        match &instrs[i] {
            Instruction::Increment { amount, offset, position } => {
                match delta.checked_add(*offset) {
                    Some(o) => {
                        let x = Instruction::Increment { amount: *amount, offset: o, position: *position };
                        proof {
                            lemma_ops_of_push(out@, x);
                        }
                        out.push(x);
                    },
                    None => {
                        flush_instr(&mut out, delta, move_pos);
                        let x = instrs[i].duplicate();
                        proof {
                            lemma_ops_of_push(out@, x);
                        }
                        out.push(x);
                        delta = 0;
                    },
                }
            },
            Instruction::Assign { amount, offset, position } => {
                match delta.checked_add(*offset) {
                    Some(o) => {
                        let x = Instruction::Assign { amount: *amount, offset: o, position: *position };
                        proof {
                            lemma_ops_of_push(out@, x);
                        }
                        out.push(x);
                    },
                    None => {
                        flush_instr(&mut out, delta, move_pos);
                        let x = instrs[i].duplicate();
                        proof {
                            lemma_ops_of_push(out@, x);
                        }
                        out.push(x);
                        delta = 0;
                    },
                }
            },
            Instruction::PointerMove { delta: d, position } => {
                match delta.checked_add(*d) {
                    Some(s) => {
                        move_pos = if delta == 0 { *position } else { move_pos.merge(*position) };
                        delta = s;
                    },
                    None => {
                        flush_instr(&mut out, delta, move_pos);
                        delta = *d;
                        move_pos = *position;
                    },
                }
            },
            Instruction::Loop { body, position } => {
                assert(fuse_offsets_within(ops[i as int]) == Op::Loop { body: fuse_offsets(ops_of(body@)) });
                flush_instr(&mut out, delta, move_pos);
                let b = fuse_offsets_instrs(body);
                let x = Instruction::Loop { body: b, position: *position };
                proof {
                    lemma_ops_of_push(out@, x);
                }
                out.push(x);
                delta = 0;
            },
            other => {
                flush_instr(&mut out, delta, move_pos);
                let x = other.duplicate();
                proof {
                    lemma_ops_of_push(out@, x);
                }
                out.push(x);
                delta = 0;
            },
        }
        i = i + 1;
    }
    proof {
        assert(ops.subrange(0, i as int) =~= ops);
    }
    flush_instr(&mut out, delta, move_pos);
    out
}

/// One round of every pass.
pub open spec fn optimize_once(ops: Seq<Op>) -> Seq<Op> {
    simplify(remove_dead(combine(fuse_offsets(ops)), true))
}

/// `n` rounds.
pub open spec fn optimize_rounds(ops: Seq<Op>, n: nat) -> Seq<Op>
    decreases n,
{
    if n == 0 { ops } else { optimize_once(optimize_rounds(ops, (n - 1) as nat)) }
}

/// The most rounds the optimizer runs.
pub const MAX_OPT_ITERATIONS: u64 = 40;

/// Optimize a whole program: run every pass, again and again, until a round
/// changes nothing (or `MAX_OPT_ITERATIONS` rounds have run). Returns the program
/// and the warnings found on the way, at most one per position.
pub fn optimize(instrs: Vec<Instruction>) -> (r: (Vec<Instruction>, Vec<Warning>))
    ensures
        exists|n: nat| n <= MAX_OPT_ITERATIONS && ops_of(r.0@) == #[trigger] optimize_rounds(ops_of(instrs@), n)
            && (n < MAX_OPT_ITERATIONS ==> optimize_once(ops_of(r.0@)) == ops_of(r.0@)),
{
    let mut warnings: Vec<Warning> = Vec::new();
    let mut prog = instrs;
    let mut n: u64 = 0;
    while n < MAX_OPT_ITERATIONS
        invariant
            n <= MAX_OPT_ITERATIONS,
            ops_of(prog@) == optimize_rounds(ops_of(instrs@), n as nat),
        decreases MAX_OPT_ITERATIONS - n,
    {
        let f = fuse_offsets_instrs(&prog);
        let a = combine_adjacent(&f);
        let b = remove_dead_loops(&a, true, &mut warnings);
        let c = simplify_loops(&b, &mut warnings);
        if same_program(&prog, &c) {
            return (prog, warnings);
        }
        prog = c;
        n = n + 1;
    }
    (prog, warnings)
}

/// A loop becomes a multiply-move only when its body increments and moves alone,
/// brings the head back where it started, and takes exactly one from the head cell.
pub proof fn lemma_multiply_move_conservative(body: Seq<Op>)
    requires
        rewrite_loop(body) is MultiplyMove,
    ensures
        forall|i: int| 0 <= i < body.len() ==> (#[trigger] body[i] is Increment || body[i] is PointerMove),
        net_move(body) == 0,
        scan(body) is Some && value_of(scan(body)->0, 0) == -1,
{
    lemma_scan_shape(body);
}

proof fn lemma_scan_shape(ops: Seq<Op>)
    requires
        scan(ops) is Some,
    ensures
        forall|i: int| 0 <= i < ops.len() ==> (#[trigger] ops[i] is Increment || ops[i] is PointerMove),
    decreases ops.len(),
{
    if ops.len() > 0 {
        lemma_scan_shape(ops.drop_last());
        assert forall|i: int| 0 <= i < ops.len() implies (#[trigger] ops[i] is Increment || ops[i] is PointerMove) by {
            if i < ops.len() - 1 {
                assert(ops.drop_last()[i] == ops[i]);
            }
        }
    }
}

/// Optimizing twice is optimizing once: where a run of the optimizer stopped because a
/// round changed nothing, any further rounds leave its result as it is.
pub proof fn lemma_optimize_idempotent(p: Seq<Op>, n: nat, m: nat)
    requires
        optimize_once(optimize_rounds(p, n)) == optimize_rounds(p, n),
    ensures
        optimize_rounds(optimize_rounds(p, n), m) == optimize_rounds(p, n),
    decreases m,
{
    if m > 0 {
        lemma_optimize_idempotent(p, n, (m - 1) as nat);
    }
}

proof fn lemma_without_key(c: Seq<(isize, i8)>, k: isize)
    ensures
        forall|i: int| 0 <= i < without_key(c, k).len() ==> (#[trigger] without_key(c, k)[i]).0 != k,
    decreases c.len(),
{
    if c.len() > 0 {
        lemma_without_key(c.drop_last(), k);
        let w = without_key(c.drop_last(), k);
        if c.last().0 != k {
            assert forall|i: int| 0 <= i < w.push(c.last()).len() implies (#[trigger] w.push(c.last())[i]).0 != k by {
                if i < w.len() {
                    assert(w.push(c.last())[i] == w[i]);
                }
            }
        }
    } else {
        assert(without_key(c, k).len() == 0);
    }
}

/// No two entries share a key.
pub open spec fn unique_keys(c: Seq<(isize, i8)>) -> bool {
    forall|i: int, j: int| 0 <= i < j < c.len() ==> c[i].0 != c[j].0
}

proof fn lemma_add_change_unique(c: Seq<(isize, i8)>, k: isize, v: i8)
    requires
        unique_keys(c),
    ensures
        unique_keys(add_change(c, k, v)),
{
    if exists|j: int| 0 <= j < c.len() && c[j].0 == k {
        let idx = choose|j: int| 0 <= j < c.len() && c[j].0 == k;
        lemma_add_change_found(c, k, v, idx);
    } else {
        lemma_add_change_new(c, k, v);
    }
}

proof fn lemma_scan_unique(ops: Seq<Op>)
    requires
        scan(ops) is Some,
    ensures
        unique_keys(scan(ops)->0),
    decreases ops.len(),
{
    if ops.len() > 0 {
        lemma_scan_unique(ops.drop_last());
        let c = scan(ops.drop_last())->0;
        match ops.last() {
            Op::Increment { amount, offset } => {
                let k = net_move(ops.drop_last()) + offset;
                lemma_add_change_unique(c, k as isize, amount);
            },
            _ => {},
        }
    }
}

proof fn lemma_without_key_from(c: Seq<(isize, i8)>, k: isize)
    ensures
        forall|i: int| 0 <= i < without_key(c, k).len() ==> exists|j: int| 0 <= j < c.len()
            && c[j] == #[trigger] without_key(c, k)[i],
        unique_keys(c) ==> unique_keys(without_key(c, k)),
    decreases c.len(),
{
    if c.len() > 0 {
        let d = c.drop_last();
        lemma_without_key_from(d, k);
        let w = without_key(d, k);
        assert forall|i: int| 0 <= i < w.len() implies exists|j: int| 0 <= j < c.len() && c[j] == #[trigger] w[i] by {
            let j = choose|j: int| 0 <= j < d.len() && d[j] == w[i];
            assert(c[j] == d[j]);
        }
        if c.last().0 != k {
            let x = w.push(c.last());
            assert forall|i: int| 0 <= i < x.len() implies exists|j: int| 0 <= j < c.len() && c[j] == #[trigger] x[i] by {
                if i < w.len() {
                    assert(x[i] == w[i]);
                } else {
                    assert(c[c.len() - 1] == x[i]);
                }
            }
            if unique_keys(c) {
                assert(unique_keys(d));
                assert forall|i: int, j: int| 0 <= i < j < x.len() implies x[i].0 != x[j].0 by {
                    if j == x.len() - 1 {
                        assert(x[i] == w[i]);
                        let q = choose|q: int| 0 <= q < d.len() && d[q] == w[i];
                        assert(c[q] == d[q]);
                    } else {
                        assert(x[i] == w[i] && x[j] == w[j]);
                    }
                }
            }
        }
    }
}

/// A recognised multiply-move is well formed: it changes at least one cell, never
/// names the head cell, which it zeroes anyway, and names each cell at most once.
pub proof fn lemma_multiply_move_well_formed(body: Seq<Op>)
    requires
        multiply_changes(body) is Some,
    ensures
        multiply_changes(body)->0.len() > 0,
        forall|i: int| 0 <= i < multiply_changes(body)->0.len() ==> (#[trigger] multiply_changes(body)->0[i]).0 != 0,
        unique_keys(multiply_changes(body)->0),
{
    lemma_without_key(scan(body)->0, 0);
    lemma_scan_unique(body);
    lemma_without_key_from(scan(body)->0, 0);
}

proof fn lemma_wrap_add(x: int, a: int, b: int)
    requires
        a % 256 == b % 256,
    ensures
        wrap(wrap(x) + a) == wrap(x + b),
{
    assert((x % 256 + a) % 256 == (x + b) % 256) by (nonlinear_arith)
        requires a % 256 == b % 256;
}

proof fn lemma_add8_mod(x: i8, y: i8)
    ensures
        (add8(x, y) - x) % 256 == (y as int) % 256,
{
}

proof fn lemma_fuse_add(m: Machine, i: int, c0: int, y: i8, z: i8, x: i8)
    requires
        0 <= i < m.cells.len(),
        (z - x) % 256 == (y as int) % 256,
    ensures
        m.cells.update(i, wrap(c0 + x)).update(i, wrap(wrap(c0 + x) + y)) == m.cells.update(i, wrap(c0 + z)),
{
    lemma_wrap_add(c0 + x, y as int, z - x);
    assert(m.cells.update(i, wrap(c0 + x)).update(i, wrap(wrap(c0 + x) + y)) =~= m.cells.update(i, wrap(c0 + z)));
}

/// Fusing two adjacent instructions keeps their meaning: on every machine where the
/// pair runs to completion, the fused instruction runs to completion too and leaves
/// the same machine.
pub proof fn lemma_fuse_sound(a: Op, b: Op, m: Machine)
    requires
        fuse(a, b) is Some,
        step(a, m).0 == Outcome::Completed,
        step(b, step(a, m).1).0 == Outcome::Completed,
    ensures
        step(fuse(a, b)->0, m) == step(b, step(a, m).1),
{
    match (a, b) {
        (Op::Increment { amount: x, offset: o }, Op::Increment { amount: y, .. }) => {
            lemma_add8_mod(x, y);
            lemma_fuse_add(m, m.ptr + o, m.cells[m.ptr + o] as int, y, add8(x, y), x);
        },
        (Op::Assign { amount: v, offset: o }, Op::Increment { amount: x, .. }) => {
            lemma_add8_mod(v, x);
            lemma_fuse_add(m, m.ptr + o, 0, x, add8(v, x), v);
        },
        (Op::Assign { offset: o, .. }, Op::Assign { amount: v, .. }) => {
            let i = m.ptr + o;
            assert(step(a, m).1.cells.update(i, wrap(v as int)) =~= m.cells.update(i, wrap(v as int)));
        },
        (Op::Increment { offset: o, .. }, Op::Assign { amount: v, .. }) => {
            let i = m.ptr + o;
            assert(step(a, m).1.cells.update(i, wrap(v as int)) =~= m.cells.update(i, wrap(v as int)));
        },
        _ => {},
    }
}

proof fn lemma_loop_exits_at_zero(body: Seq<Op>, m: Machine, fuel: nat)
    requires
        run(seq![Op::Loop { body }], m, fuel).0 == Outcome::Completed,
    ensures
        ({
            let r = run(seq![Op::Loop { body }], m, fuel).1;
            r.cells[r.ptr] == 0
        }),
    decreases fuel,
{
    let l = seq![Op::Loop { body }];
    assert(l[0] == Op::Loop { body });
    assert(l.subrange(1, 1) =~= Seq::<Op>::empty());
    if fuel > 0 && m.cells[m.ptr] == 0 {
        assert(run(Seq::<Op>::empty(), m, (fuel - 1) as nat) == (Outcome::Completed, m, (fuel - 1) as nat));
    }
    if fuel > 0 && m.cells[m.ptr] != 0 {
        let f = (fuel - 1) as nat;
        assert(run(l, m, fuel) == run(body + l, m, f));
        lemma_run_append(body, l, m, f);
        lemma_run_fuel(body, m, f);
        let rb = run(body, m, f);
        if rb.0 == Outcome::Completed {
            lemma_loop_exits_at_zero(body, rb.1, rb.2);
        }
    }
}

proof fn lemma_apply_changes_len(cells: Seq<u8>, ptr: int, changes: Seq<(isize, i8)>, factor: u8)
    requires
        changes_in_tape(changes, ptr, cells.len() as int),
    ensures
        apply_changes(cells, ptr, changes, factor).len() == cells.len(),
    decreases changes.len(),
{
    if changes.len() > 0 {
        let d = changes.drop_last();
        assert forall|j: int| 0 <= j < d.len() implies 0 <= ptr + (#[trigger] d[j]).0 < cells.len() by {
            assert(d[j] == changes[j]);
        }
        lemma_apply_changes_len(cells, ptr, d, factor);
        assert(0 <= ptr + changes[changes.len() - 1].0 < cells.len());
    }
}

/// What the dead-loop pass relies on: an instruction that `zeroes_head` leaves the
/// head cell zero whenever it runs to completion.
pub proof fn lemma_zeroes_head_sound(op: Op, m: Machine, fuel: nat)
    requires
        zeroes_head(op),
        0 <= m.ptr < m.cells.len(),
        run(seq![op], m, fuel).0 == Outcome::Completed,
    ensures
        ({
            let r = run(seq![op], m, fuel).1;
            r.cells[r.ptr] == 0
        }),
{
    let l = seq![op];
    assert(l[0] == op);
    assert(l.subrange(1, 1) =~= Seq::<Op>::empty());
    match op {
        Op::Loop { body } => {
            lemma_loop_exits_at_zero(body, m, fuel);
        },
        Op::MultiplyMove { changes } => {
            lemma_apply_changes_len(m.cells, m.ptr, changes, m.cells[m.ptr]);
            let m1 = step(op, m).1;
            assert(run(Seq::<Op>::empty(), m1, (fuel - 1) as nat) == (Outcome::Completed, m1, (fuel - 1) as nat));
        },
        _ => {
            assert(wrap(0) == 0);
            let m1 = step(op, m).1;
            assert(run(Seq::<Op>::empty(), m1, (fuel - 1) as nat) == (Outcome::Completed, m1, (fuel - 1) as nat));
        },
    }
}

/// A loop entered with the head cell zero does nothing but its one test.
pub proof fn lemma_dead_loop_skipped(body: Seq<Op>, rest: Seq<Op>, m: Machine, fuel: nat)
    requires
        m.cells[m.ptr] == 0,
        fuel > 0,
    ensures
        run(seq![Op::Loop { body }] + rest, m, fuel) == run(rest, m, (fuel - 1) as nat),
{
    let s = seq![Op::Loop { body }] + rest;
    assert(s[0] == Op::Loop { body });
    assert(s.subrange(1, s.len() as int) =~= rest);
}

} // verus!
