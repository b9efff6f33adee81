use vstd::prelude::*;

verus! {

broadcast use {vstd::std_specs::vec::group_vec_axioms, vstd::seq::group_seq_axioms};

/// An inclusive range of byte offsets into the source text.
#[derive(Clone, Copy, Debug, PartialEq, Eq, Structural)]
pub struct Position {
    pub start: usize,
    pub end: usize,
}

impl Position {
    /// The smallest range that covers both positions.
    pub open spec fn merged(self, other: Position) -> Position {
        Position {
            start: if self.start <= other.start { self.start } else { other.start },
            end: if self.end >= other.end { self.end } else { other.end },
        }
    }

    pub fn merge(self, other: Position) -> (r: Position)
        ensures
            r == self.merged(other),
    {
        Position {
            start: if self.start <= other.start { self.start } else { other.start },
            end: if self.end >= other.end { self.end } else { other.end },
        }
    }
}

/// One instruction of the intermediate representation.
#[derive(Debug)]
pub enum Instruction {
    Increment { amount: i8, offset: isize, position: Position },
    PointerMove { delta: isize, position: Position },
    Read { position: Position },
    Write { position: Position },
    Loop { body: Vec<Instruction>, position: Position },
    Assign { amount: i8, offset: isize, position: Position },
    MultiplyMove { changes: Vec<(isize, i8)>, position: Position },
}

/// The meaning of an instruction, without its source position.
pub ghost enum Op {
    Increment { amount: i8, offset: isize },
    PointerMove { delta: isize },
    Read,
    Write,
    Loop { body: Seq<Op> },
    Assign { amount: i8, offset: isize },
    MultiplyMove { changes: Seq<(isize, i8)> },
}

impl Instruction {
    pub open spec fn op(&self) -> Op
        decreases self,
    {
        match self {
            Instruction::Increment { amount, offset, .. } => Op::Increment { amount: *amount, offset: *offset },
            Instruction::PointerMove { delta, .. } => Op::PointerMove { delta: *delta },
            Instruction::Read { .. } => Op::Read,
            Instruction::Write { .. } => Op::Write,
            Instruction::Loop { body, .. } => Op::Loop { body: ops_of(body@) },
            Instruction::Assign { amount, offset, .. } => Op::Assign { amount: *amount, offset: *offset },
            Instruction::MultiplyMove { changes, .. } => Op::MultiplyMove { changes: changes@ },
        }
    }

    pub open spec fn pos(&self) -> Position {
        match self {
            Instruction::Increment { position, .. } => *position,
            Instruction::PointerMove { position, .. } => *position,
            Instruction::Read { position } => *position,
            Instruction::Write { position } => *position,
            Instruction::Loop { position, .. } => *position,
            Instruction::Assign { position, .. } => *position,
            Instruction::MultiplyMove { position, .. } => *position,
        }
    }

    /// The source position of this instruction.
    pub fn position(&self) -> (r: Position)
        ensures
            r == self.pos(),
    {
        match self {
            Instruction::Increment { position, .. } => *position,
            Instruction::PointerMove { position, .. } => *position,
            Instruction::Read { position } => *position,
            Instruction::Write { position } => *position,
            Instruction::Loop { position, .. } => *position,
            Instruction::Assign { position, .. } => *position,
            Instruction::MultiplyMove { position, .. } => *position,
        }
    }

    /// A copy of this instruction, with the same meaning and position.
    pub fn duplicate(&self) -> (r: Instruction)
        ensures
            r.op() == self.op(),
            r.pos() == self.pos(),
        decreases self,
    {
        match self {
            Instruction::Increment { amount, offset, position } => Instruction::Increment {
                amount: *amount,
                offset: *offset,
                position: *position,
            },
            Instruction::PointerMove { delta, position } => Instruction::PointerMove {
                delta: *delta,
                position: *position,
            },
            Instruction::Read { position } => Instruction::Read { position: *position },
            Instruction::Write { position } => Instruction::Write { position: *position },
            Instruction::Loop { body, position } => {
                let b = duplicate_all(body);
                Instruction::Loop { body: b, position: *position }
            },
            Instruction::Assign { amount, offset, position } => Instruction::Assign {
                amount: *amount,
                offset: *offset,
                position: *position,
            },
            Instruction::MultiplyMove { changes, position } => {
                let mut c: Vec<(isize, i8)> = Vec::new();
                let mut i: usize = 0;
                while i < changes.len()
                    invariant
                        i <= changes@.len(),
                        c@ == changes@.subrange(0, i as int),
                    decreases changes@.len() - i,
                {
                    c.push(changes[i]);
                    i = i + 1;
                }
                assert(c@ =~= changes@);
                Instruction::MultiplyMove { changes: c, position: *position }
            },
        }
    }
}

/// The meanings of a sequence of instructions.
pub open spec fn ops_of(s: Seq<Instruction>) -> Seq<Op>
    decreases s,
{
    if s.len() == 0 {
        Seq::empty()
    } else {
        ops_of(s.drop_last()).push(s.last().op())
    }
}

pub proof fn lemma_ops_of(s: Seq<Instruction>)
    ensures
        ops_of(s).len() == s.len(),
        forall|i: int| 0 <= i < s.len() ==> #[trigger] ops_of(s)[i] == s[i].op(),
    decreases s.len(),
{
    if s.len() > 0 {
        lemma_ops_of(s.drop_last());
    }
}

pub proof fn lemma_ops_of_push(s: Seq<Instruction>, x: Instruction)
    ensures
        ops_of(s.push(x)) == ops_of(s).push(x.op()),
{
    assert(s.push(x).drop_last() =~= s);
}

/// A copy of a sequence of instructions, with the same meanings and positions.
pub fn duplicate_all(v: &Vec<Instruction>) -> (r: Vec<Instruction>)
    ensures
        ops_of(r@) == ops_of(v@),
        r@.len() == v@.len(),
        forall|i: int| 0 <= i < v@.len() ==> #[trigger] r@[i].pos() == v@[i].pos(),
    decreases v,
{
    let mut r: Vec<Instruction> = Vec::new();
    let mut i: usize = 0;
    while i < v.len()
        invariant
            i <= v@.len(),
            r@.len() == i,
            ops_of(r@) == ops_of(v@.subrange(0, i as int)),
            forall|j: int| 0 <= j < i ==> #[trigger] r@[j].pos() == v@[j].pos(),
        decreases v@.len() - i,
    {
        let x = v[i].duplicate();
        proof {
            lemma_ops_of_push(r@, x);
            lemma_ops_of_push(v@.subrange(0, i as int), v@[i as int]);
            assert(v@.subrange(0, i as int).push(v@[i as int]) =~= v@.subrange(0, i + 1));
        }
        r.push(x);
        i = i + 1;
    }
    assert(v@.subrange(0, i as int) =~= v@);
    r
}

} // verus!
