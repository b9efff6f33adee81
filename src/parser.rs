use vstd::prelude::*;
use crate::ir::{Instruction, Op, Position, ops_of, lemma_ops_of_push};
use vstd::string::StringSliceAdditionalSpecFns;

verus! {

broadcast use {vstd::std_specs::vec::group_vec_axioms, vstd::seq::group_seq_axioms};

/// Why source text could not be parsed, and where.
#[derive(Debug)]
pub struct ParseError {
    pub message: String,
    pub position: Position,
}

/// The eight characters that carry meaning; every other byte is a comment.
pub open spec fn is_token(c: u8) -> bool {
    c == '+' as u8 || c == '-' as u8 || c == '<' as u8 || c == '>' as u8 || c == '[' as u8
        || c == ']' as u8 || c == '.' as u8 || c == ',' as u8
}

/// The meaningful characters of `s`, in order.
pub open spec fn tokens(s: Seq<u8>) -> Seq<u8>
    decreases s.len(),
{
    if s.len() == 0 {
        Seq::empty()
    } else if is_token(s.last()) {
        tokens(s.drop_last()).push(s.last())
    } else {
        tokens(s.drop_last())
    }
}

/// An instruction of a shape that the parser makes: a unit increment of the head
/// cell, a unit move, a read, a write, or a loop of such instructions.
pub open spec fn parser_op(op: Op) -> bool
    decreases op,
{
    match op {
        Op::Increment { amount, offset } => (amount == 1 || amount == -1) && offset == 0,
        Op::PointerMove { delta } => delta == 1 || delta == -1,
        Op::Read => true,
        Op::Write => true,
        Op::Loop { body } => parser_form(body),
        _ => false,
    }
}

/// Every instruction of `ops` is of a shape that the parser makes.
pub open spec fn parser_form(ops: Seq<Op>) -> bool
    decreases ops,
{
    ops.len() == 0 || (parser_form(ops.drop_last()) && parser_op(ops.last()))
}

proof fn lemma_parser_form_push(ops: Seq<Op>, op: Op)
    requires
        parser_form(ops),
        parser_op(op),
    ensures
        parser_form(ops.push(op)),
{
    assert(ops.push(op).drop_last() =~= ops);
}

/// The instruction carries the position of its source in `b`: one byte for a simple
/// instruction, the whole bracketed range for a loop, whose body is placed likewise.
pub open spec fn placed(b: Seq<u8>, ins: Instruction) -> bool
    decreases ins,
{
    let p = ins.pos();
    p.start <= p.end < b.len() && match ins {
        Instruction::Loop { body, .. } => b[p.start as int] == '[' as u8 && b[p.end as int] == ']' as u8
            && all_placed(b, body@),
        _ => p.start == p.end && render_op(ins.op()) == seq![b[p.start as int]],
    }
}

/// Every instruction of `s` is `placed`.
pub open spec fn all_placed(b: Seq<u8>, s: Seq<Instruction>) -> bool
    decreases s,
{
    s.len() == 0 || (all_placed(b, s.drop_last()) && placed(b, s.last()))
}

proof fn lemma_all_placed_push(b: Seq<u8>, s: Seq<Instruction>, x: Instruction)
    requires
        all_placed(b, s),
        placed(b, x),
    ensures
        all_placed(b, s.push(x)),
{
    assert(s.push(x).drop_last() =~= s);
}

/// Source text for one instruction of the shapes that the parser produces.
pub open spec fn render_op(op: Op) -> Seq<u8>
    decreases op,
{
    match op {
        Op::Increment { amount, offset } => if amount == 1 && offset == 0 {
            seq!['+' as u8]
        } else if amount == -1 && offset == 0 {
            seq!['-' as u8]
        } else {
            Seq::empty()
        },
        Op::PointerMove { delta } => if delta == 1 {
            seq!['>' as u8]
        } else if delta == -1 {
            seq!['<' as u8]
        } else {
            Seq::empty()
        },
        Op::Read => seq![',' as u8],
        Op::Write => seq!['.' as u8],
        Op::Loop { body } => seq!['[' as u8] + render(body) + seq![']' as u8],
        _ => Seq::empty(),
    }
}

/// Source text for a sequence of instructions.
pub open spec fn render(ops: Seq<Op>) -> Seq<u8>
    decreases ops,
{
    if ops.len() == 0 {
        Seq::empty()
    } else {
        render(ops.drop_last()) + render_op(ops.last())
    }
}


/// Open brackets minus close brackets in `s`.
pub open spec fn nesting(s: Seq<u8>) -> int
    decreases s.len(),
{
    if s.len() == 0 {
        0
    } else {
        nesting(s.drop_last()) + if s.last() == '[' as u8 {
            1int
        } else if s.last() == ']' as u8 {
            -1int
        } else {
            0int
        }
    }
}

/// No prefix of `s` closes more brackets than it opens.
pub open spec fn never_below(s: Seq<u8>, floor: int) -> bool {
    forall|p: int| 0 <= p <= s.len() ==> #[trigger] nesting(s.subrange(0, p)) >= floor
}

/// `]` at `j` is the first close bracket without its open bracket.
pub open spec fn first_unmatched_close(s: Seq<u8>, j: int) -> bool {
    0 <= j < s.len() && s[j] == ']' as u8 && balanced(s.subrange(0, j))
}

/// `[` at `k` is never closed, and every bracket after it is matched: it is the
/// innermost bracket left open at the end.
pub open spec fn innermost_unclosed_open(s: Seq<u8>, k: int) -> bool {
    0 <= k < s.len() && s[k] == '[' as u8 && balanced(s.subrange(k + 1, s.len() as int))
}

/// Every bracket of `s` is matched.
pub open spec fn balanced(s: Seq<u8>) -> bool {
    nesting(s) == 0 && never_below(s, 0)
}

pub proof fn lemma_nesting_append(a: Seq<u8>, b: Seq<u8>)
    ensures
        nesting(a + b) == nesting(a) + nesting(b),
    decreases b.len(),
{
    if b.len() == 0 {
        assert(a + b =~= a);
    } else {
        lemma_nesting_append(a, b.drop_last());
        assert((a + b).drop_last() =~= a + b.drop_last());
    }
}

proof fn lemma_nesting_one(c: u8)
    ensures
        nesting(seq![c]) == (if c == '[' as u8 { 1int } else if c == ']' as u8 { -1int } else { 0int }),
{
    assert(seq![c].drop_last() =~= Seq::<u8>::empty());
    assert(seq![c].last() == c);
    assert(nesting(Seq::<u8>::empty()) == 0);
}

/// `s` followed by one byte: prefixes stay at or above `floor` where they did and the
/// whole stays there.
proof fn lemma_never_below_push(s: Seq<u8>, c: u8, floor: int)
    requires
        never_below(s, floor),
        nesting(s + seq![c]) >= floor,
    ensures
        never_below(s + seq![c], floor),
{
    let t = s + seq![c];
    assert forall|p: int| 0 <= p <= t.len() implies #[trigger] nesting(t.subrange(0, p)) >= floor by {
        if p <= s.len() {
            assert(t.subrange(0, p) =~= s.subrange(0, p));
        } else {
            assert(t.subrange(0, p) =~= t);
        }
    }
}

pub proof fn lemma_tokens_append(a: Seq<u8>, b: Seq<u8>)
    ensures
        tokens(a + b) == tokens(a) + tokens(b),
    decreases b.len(),
{
    if b.len() == 0 {
        assert(a + b =~= a);
        assert(tokens(a) + tokens(b) =~= tokens(a));
    } else {
        lemma_tokens_append(a, b.drop_last());
        assert((a + b).drop_last() =~= a + b.drop_last());
        if is_token(b.last()) {
            assert(tokens(a) + tokens(b) =~= tokens(a) + tokens(b.drop_last()) + seq![b.last()]);
            assert(tokens(a + b) =~= tokens(a) + tokens(b.drop_last()) + seq![b.last()]);
        }
    }
}

proof fn lemma_tokens_one(c: u8)
    ensures
        tokens(seq![c]) == (if is_token(c) { seq![c] } else { Seq::<u8>::empty() }),
{
    let s = seq![c];
    assert(s.drop_last() =~= Seq::<u8>::empty());
    assert(s.last() == c);
    assert(tokens(Seq::<u8>::empty()) == Seq::<u8>::empty());
    if is_token(c) {
        assert(Seq::<u8>::empty().push(c) =~= s);
    }
}

proof fn lemma_render_push(ops: Seq<Op>, op: Op)
    ensures
        render(ops.push(op)) == render(ops) + render_op(op),
{
    assert(ops.push(op).drop_last() =~= ops);
}

/// A `[` at `k` whose rest `b[k+1..]` is balanced leaves one bracket open at the end.
proof fn lemma_open_unclosed(b: Seq<u8>, k: int)
    requires
        0 <= k < b.len(),
        b[k] == '[' as u8,
        nesting(b.subrange(k + 1, b.len() as int)) == 0,
        never_below(b.subrange(k + 1, b.len() as int), 0),
    ensures
        nesting(b.subrange(k, b.len() as int)) >= 1,
{
    let t = b.subrange(k, b.len() as int);
    let rest = b.subrange(k + 1, b.len() as int);
    lemma_nesting_one(b[k]);
    assert(t =~= seq![b[k]] + rest);
    lemma_nesting_append(seq![b[k]], rest);
}

/// A balanced frame `b[i..k]` followed by a loop `[ .. ]` spanning `k..=j` is balanced.
proof fn lemma_loop_balanced(b: Seq<u8>, i: int, k: int, j: int)
    requires
        0 <= i <= k < j < b.len(),
        b[k] == '[' as u8,
        b[j] == ']' as u8,
        nesting(b.subrange(i, k)) == 0,
        never_below(b.subrange(i, k), 0),
        nesting(b.subrange(k + 1, j)) == 0,
        never_below(b.subrange(k + 1, j), 0),
    ensures
        nesting(b.subrange(i, j + 1)) == 0,
        never_below(b.subrange(i, j + 1), 0),
{
    let pre = b.subrange(i, k);
    let inner = b.subrange(k + 1, j);
    let t = b.subrange(i, j + 1);
    lemma_nesting_one(b[k]);
    lemma_nesting_one(b[j]);
    assert(t =~= pre + seq![b[k]] + inner + seq![b[j]]);
    lemma_nesting_append(pre, seq![b[k]]);
    lemma_nesting_append(pre + seq![b[k]], inner);
    lemma_nesting_append(pre + seq![b[k]] + inner, seq![b[j]]);
    assert forall|p: int| 0 <= p <= t.len() implies #[trigger] nesting(t.subrange(0, p)) >= 0 by {
        if p <= k - i {
            assert(t.subrange(0, p) =~= pre.subrange(0, p));
        } else if p <= j - i {
            let q = p - (k - i) - 1;
            assert(t.subrange(0, p) =~= (pre + seq![b[k]]) + inner.subrange(0, q));
            lemma_nesting_append(pre + seq![b[k]], inner.subrange(0, q));
            assert(nesting(inner.subrange(0, q)) >= 0);
            assert(pre.subrange(0, pre.len() as int) =~= pre);
        } else {
            assert(t.subrange(0, p) =~= t);
        }
    }
}

/// Parse from `i` up to the first unmatched `]` or the end. Returns the
/// instructions and the index where parsing stopped.
fn parse_from(b: &[u8], i: usize) -> (r: Result<(Vec<Instruction>, usize), ParseError>)
    requires
        i <= b@.len(),
    ensures
        r matches Ok((v, j)) ==> {
            &&& i <= j <= b@.len()
            &&& (j == b@.len() || b@[j as int] == ']' as u8)
            &&& render(ops_of(v@)) == tokens(b@.subrange(i as int, j as int))
            &&& nesting(b@.subrange(i as int, j as int)) == 0
            &&& never_below(b@.subrange(i as int, j as int), 0)
            &&& parser_form(ops_of(v@))
            &&& all_placed(b@, v@)
        },
        r matches Err(e) ==> e.message@ == "unmatched ["@ && i <= e.position.start < b@.len()
            && b@[e.position.start as int] == '[' as u8
            && nesting(b@.subrange(e.position.start as int, b@.len() as int)) >= 1
            && balanced(b@.subrange(e.position.start + 1, b@.len() as int))
            && e.position.end == e.position.start,
    decreases b@.len() - i,
{
    let mut v: Vec<Instruction> = Vec::new();
    let mut k: usize = i;
    proof {
        assert(parser_form(ops_of(v@)));
        assert(all_placed(b@, v@));
        assert(b@.subrange(i as int, i as int) =~= Seq::<u8>::empty());
        assert(never_below(Seq::<u8>::empty(), 0)) by {
            assert forall|p: int| 0 <= p <= 0 implies #[trigger] nesting(Seq::<u8>::empty().subrange(0, p)) >= 0 by {
                assert(Seq::<u8>::empty().subrange(0, p) =~= Seq::<u8>::empty());
            }
        }
    }
    while k < b.len()
        invariant
            i <= k <= b@.len(),
            render(ops_of(v@)) == tokens(b@.subrange(i as int, k as int)),
            nesting(b@.subrange(i as int, k as int)) == 0,
            never_below(b@.subrange(i as int, k as int), 0),
            parser_form(ops_of(v@)),
            all_placed(b@, v@),
        decreases b@.len() - k,
    {
        let c = b[k];
        let here = Position { start: k, end: k };
        let ghost before = v@;
        proof {
            lemma_tokens_append(b@.subrange(i as int, k as int), seq![c]);
            lemma_nesting_append(b@.subrange(i as int, k as int), seq![c]);
            lemma_nesting_one(c);
            assert(b@.subrange(i as int, k as int) + seq![c] =~= b@.subrange(i as int, k + 1));
            if c != '[' as u8 && c != ']' as u8 {
                lemma_never_below_push(b@.subrange(i as int, k as int), c, 0);
            }
            assert(seq![c].drop_last() =~= Seq::<u8>::empty());
        }
        if c == '+' as u8 || c == '-' as u8 || c == '<' as u8 || c == '>' as u8 || c == '.' as u8 || c == ',' as u8 {
            let instr = if c == '+' as u8 {
                Instruction::Increment { amount: 1, offset: 0, position: here }
            } else if c == '-' as u8 {
                Instruction::Increment { amount: -1, offset: 0, position: here }
            } else if c == '>' as u8 {
                Instruction::PointerMove { delta: 1, position: here }
            } else if c == '<' as u8 {
                Instruction::PointerMove { delta: -1, position: here }
            } else if c == '.' as u8 {
                Instruction::Write { position: here }
            } else {
                Instruction::Read { position: here }
            };
            proof {
                lemma_ops_of_push(before, instr);
                lemma_render_push(ops_of(before), instr.op());
                assert(render_op(instr.op()) =~= seq![c]);
                lemma_tokens_one(c);
                lemma_parser_form_push(ops_of(before), instr.op());
                assert(placed(b@, instr));
            }
            proof {
                lemma_all_placed_push(b@, before, instr);
            }
            v.push(instr);
            k = k + 1;
        } else if c == '[' as u8 {
            match parse_from(b, k + 1) {
                Ok((body, j)) => {
                    if j == b.len() {
                        proof {
                            reveal_strlit("unmatched [");
                            lemma_open_unclosed(b@, k as int);
                        }
                        return Err(ParseError { message: String::from_str("unmatched ["), position: here });
                    }
                    proof {
                        lemma_loop_balanced(b@, i as int, k as int, j as int);
                    }
                    let instr = Instruction::Loop { body, position: Position { start: k, end: j } };
                    assert(placed(b@, instr));
                    proof {
                        lemma_ops_of_push(before, instr);
                        lemma_render_push(ops_of(before), instr.op());
                        let inner = b@.subrange(k + 1, j as int);
                        lemma_tokens_append(b@.subrange(i as int, k as int), seq![c]);
                        lemma_tokens_append(b@.subrange(i as int, k + 1), inner);
                        lemma_tokens_append(b@.subrange(i as int, j as int), seq![b@[j as int]]);
                        assert(b@.subrange(i as int, k + 1) + inner =~= b@.subrange(i as int, j as int));
                        assert(b@.subrange(i as int, j as int) + seq![b@[j as int]] =~= b@.subrange(i as int, j + 1));
                        let cl = seq![b@[j as int]];
                        assert(cl.drop_last() =~= Seq::<u8>::empty());
                        lemma_tokens_one(b@[j as int]);
                        lemma_tokens_one(c);
                        assert(render_op(instr.op()) =~= seq![c] + tokens(inner) + cl);
                        assert(render(ops_of(before.push(instr))) =~= tokens(b@.subrange(i as int, j + 1)));
                        lemma_parser_form_push(ops_of(before), instr.op());
                    }
                    proof {
                        lemma_all_placed_push(b@, before, instr);
                    }
                    v.push(instr);
                    k = j + 1;
                },
                Err(e) => {
                    return Err(e);
                },
            }
        } else if c == ']' as u8 {
            return Ok((v, k));
        } else {
            proof {
                lemma_tokens_one(c);
                assert(tokens(b@.subrange(i as int, k as int)) + Seq::<u8>::empty() =~= tokens(b@.subrange(i as int, k as int)));
            }
            k = k + 1;
        }
    }
    Ok((v, k))
}

/// Parse source text into instructions. Every byte other than the eight tokens is
/// ignored. Fails on a `]` without its `[` ("unmatched ]") and on a `[` never
/// closed ("unmatched ["), at that bracket.
pub fn parse(source: &str) -> (r: Result<Vec<Instruction>, ParseError>)
    ensures
        r is Ok <==> balanced(source.spec_bytes()),
        r matches Ok(v) ==> render(ops_of(v@)) == tokens(source.spec_bytes()) && parser_form(ops_of(v@))
            && all_placed(source.spec_bytes(), v@),
        r matches Err(e) ==> e.position.start < source.spec_bytes().len() && e.position.end == e.position.start && (
            (e.message@ == "unmatched ]"@ && first_unmatched_close(source.spec_bytes(), e.position.start as int))
            || (e.message@ == "unmatched ["@ && innermost_unclosed_open(source.spec_bytes(), e.position.start as int))),
{
    let b = source.as_bytes();
    proof {
        reveal_strlit("unmatched [");
        reveal_strlit("unmatched ]");
    }
    match parse_from(b, 0) {
        Ok((v, j)) => {
            if j < b.len() {
                proof {
                    lemma_nesting_append(b@.subrange(0, j as int), seq![b@[j as int]]);
                    lemma_nesting_one(b@[j as int]);
                    assert(b@.subrange(0, j as int) + seq![b@[j as int]] =~= b@.subrange(0, j + 1));
                    assert(nesting(b@.subrange(0, j + 1)) < 0);
                }
                Err(ParseError { message: String::from_str("unmatched ]"), position: Position { start: j, end: j } })
            } else {
                assert(b@.subrange(0, j as int) =~= b@);
                Ok(v)
            }
        },
        Err(e) => {
            proof {
                lemma_unclosed_unbalanced(b@, e.position.start as int);
            }
            Err(e)
        },
    }
}

proof fn lemma_unclosed_unbalanced(b: Seq<u8>, k: int)
    requires
        0 <= k < b.len(),
        nesting(b.subrange(k, b.len() as int)) >= 1,
    ensures
        !balanced(b),
{
    assert(b =~= b.subrange(0, k) + b.subrange(k, b.len() as int));
    lemma_nesting_append(b.subrange(0, k), b.subrange(k, b.len() as int));
    if nesting(b.subrange(0, k)) >= 0 {
        assert(nesting(b) >= 1);
    } else {
        assert(!never_below(b, 0)) by {
            assert(nesting(b.subrange(0, k)) < 0);
        }
    }
}

proof fn lemma_tokens_all(s: Seq<u8>)
    requires
        forall|i: int| 0 <= i < s.len() ==> is_token(#[trigger] s[i]),
    ensures
        tokens(s) == s,
    decreases s.len(),
{
    if s.len() > 0 {
        lemma_tokens_all(s.drop_last());
        assert(is_token(s[s.len() - 1]));
        assert(s.drop_last().push(s.last()) =~= s);
    }
}

/// Round trip: for a text made only of the eight tokens, the program that `parse`
/// returns renders back to exactly that text.
pub proof fn lemma_parse_round_trip(s: Seq<u8>, ops: Seq<Op>)
    requires
        forall|i: int| 0 <= i < s.len() ==> is_token(#[trigger] s[i]),
        render(ops) == tokens(s),
    ensures
        render(ops) == s,
{
    lemma_tokens_all(s);
}

} // verus!
