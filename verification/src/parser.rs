//! The front end: scans source bytes, emits IR, and validates bracket balance.

use vstd::prelude::*;
use crate::ir::{
    IrOp, Op, ir_balance, ir_prefix_ok, lemma_ops_push, lemma_sum_of_full_take,
    lemma_sum_of_take_step, op_weight, ops, parser_shaped, sum_of, total_weight,
};
use crate::ir::bracket_of;

verus! {

/// A bracket-balance error.  Parsing is all-or-nothing: on error no partial IR
/// is returned.
#[derive(Clone, Copy, PartialEq, Eq, Structural, Debug)]
pub enum ParseError {
    /// A `]` appeared with no matching `[` before it.
    MissingOpenBracket,
    /// A `[` was still open at the end of the source.
    MissingCloseBracket,
}

/// The IR op a source byte maps to, or `None` for a comment byte.
pub open spec fn op_of_byte(b: u8) -> Option<Op> {
    if b == '>' as u8 {
        Some(Op::MovePointer { delta: 1 })
    } else if b == '<' as u8 {
        Some(Op::MovePointer { delta: -1 })
    } else if b == '+' as u8 {
        Some(Op::AddToCell { value: 1, offset: 0 })
    } else if b == '-' as u8 {
        Some(Op::AddToCell { value: -1, offset: 0 })
    } else if b == '.' as u8 {
        Some(Op::WriteByte { offset: 0 })
    } else if b == ',' as u8 {
        Some(Op::ReadByte { offset: 0 })
    } else if b == '[' as u8 {
        Some(Op::JumpIfZero { offset: 0 })
    } else if b == ']' as u8 {
        Some(Op::JumpIfNotZero { offset: 0 })
    } else {
        None
    }
}

/// The IR of a source text: one op per command byte, comments discarded.
pub open spec fn parse_ops(s: Seq<u8>) -> Seq<Op>
    decreases s.len(),
{
    if s.len() == 0 {
        Seq::empty()
    } else {
        parse_ops(s.drop_last()) + match op_of_byte(s.last()) {
            Some(o) => seq![o],
            None => Seq::empty(),
        }
    }
}

/// Bracket contribution of a source byte.
pub open spec fn bracket_of_byte(b: u8) -> int {
    if b == '[' as u8 {
        1
    } else if b == ']' as u8 {
        -1
    } else {
        0
    }
}

/// Open brackets minus close brackets in a source text.
pub open spec fn balance(s: Seq<u8>) -> int {
    sum_of(s, |b: u8| bracket_of_byte(b))
}

/// No prefix closes a bracket that was never opened.
pub open spec fn prefixes_ok(s: Seq<u8>) -> bool {
    forall|i: int| 0 <= i <= s.len() ==> balance(#[trigger] s.take(i)) >= 0
}

/// The source is bracket-balanced: balanced at every prefix and closed at the
/// end.  This is exactly the condition under which parsing succeeds.
pub open spec fn balanced(s: Seq<u8>) -> bool {
    prefixes_ok(s) && balance(s) == 0
}

proof fn lemma_parse_ops_take_step(s: Seq<u8>, i: int)
    requires
        0 <= i < s.len(),
    ensures
        parse_ops(s.take(i + 1)) == parse_ops(s.take(i)) + match op_of_byte(s[i]) {
            Some(o) => seq![o],
            None => Seq::<Op>::empty(),
        },
{
    assert(s.take(i + 1).drop_last() =~= s.take(i));
    assert(s.take(i + 1).last() == s[i]);
}

/// Scan the source and emit IR, validating bracket balance.
///
/// Succeeds exactly on bracket-balanced input; the result is then the
/// one-op-per-command image of the source, which is parser-shaped, has weight
/// at most the source length, and is itself bracket-balanced.
pub fn generate_bytecode(source: &[u8]) -> (r: Result<Vec<IrOp>, ParseError>)
    ensures
        r.is_ok() <==> balanced(source@),
        r matches Err(ParseError::MissingOpenBracket) <==> !prefixes_ok(source@),
        r matches Err(ParseError::MissingCloseBracket) <==> prefixes_ok(source@) && balance(
            source@,
        ) != 0,
        r matches Ok(v) ==> {
            &&& ops(v@) == parse_ops(source@)
            &&& parser_shaped(ops(v@))
            &&& ir_prefix_ok(ops(v@))
            &&& ir_balance(ops(v@)) == 0
            &&& total_weight(ops(v@)) <= source@.len()
            &&& v@.len() <= source@.len()
        },
{
    let mut bytecode: Vec<IrOp> = Vec::new();
    let mut counter: usize = 0;
    let mut i: usize = 0;

    while i < source.len()
        invariant
            0 <= i <= source@.len(),
            counter <= i,
            ops(bytecode@) == parse_ops(source@.take(i as int)),
            counter as int == balance(source@.take(i as int)),
            prefixes_ok(source@.take(i as int)),
            parser_shaped(ops(bytecode@)),
            ir_prefix_ok(ops(bytecode@)),
            ir_balance(ops(bytecode@)) == counter as int,
            total_weight(ops(bytecode@)) <= i as int,
            bytecode@.len() <= i as int,
        decreases source@.len() - i,
    {
        let b = source[i];
        proof {
            lemma_parse_ops_take_step(source@, i as int);
            lemma_sum_of_take_step(source@, |x: u8| bracket_of_byte(x), i as int);
        }
        let ghost old_ops = ops(bytecode@);
        let op: Option<IrOp> = match b {
            62u8 => Some(IrOp::MovePointer { delta: 1 }),
            60u8 => Some(IrOp::MovePointer { delta: -1 }),
            43u8 => Some(IrOp::AddToCell { value: 1, offset: 0 }),
            45u8 => Some(IrOp::AddToCell { value: -1, offset: 0 }),
            46u8 => Some(IrOp::WriteByte { offset: 0 }),
            44u8 => Some(IrOp::ReadByte { offset: 0 }),
            91u8 => Some(IrOp::JumpIfZero { offset: 0 }),
            93u8 => Some(IrOp::JumpIfNotZero { offset: 0 }),
            _ => None,
        };
        match op {
            Some(o) => {
                if b == 93u8 {
                    if counter == 0 {
                        proof {
                            assert(balance(source@.take(i + 1)) == -1);
                            assert(source@.take(source@.len() as int) =~= source@);
                        }
                        return Err(ParseError::MissingOpenBracket);
                    }
                    counter = counter - 1;
                } else if b == 91u8 {
                    counter = counter + 1;
                }
                let ghost pre = bytecode@;
                bytecode.push(o);
                proof {
                    lemma_ops_push(pre, o);
                    let newops = old_ops.push(o@);
                    lemma_sum_of_take_step(newops, |x: Op| op_weight(x), old_ops.len() as int);
                    lemma_sum_of_take_step(newops, |x: Op| bracket_of(x), old_ops.len() as int);
                    lemma_sum_of_full_take(newops, |x: Op| op_weight(x));
                    lemma_sum_of_full_take(newops, |x: Op| bracket_of(x));
                    assert(newops.take(old_ops.len() as int) =~= old_ops);
                    assert forall|k: int| 0 <= k <= newops.len() implies ir_balance(
                        #[trigger] newops.take(k),
                    ) >= 0 by {
                        if k < newops.len() {
                            assert(newops.take(k) =~= old_ops.take(k));
                        } else {
                            assert(newops.take(k) =~= newops);
                        }
                    }
                }
            },
            None => (),
        }
        proof {
            assert(balance(source@.take(i + 1)) == counter as int);
            assert forall|k: int| 0 <= k <= i + 1 implies balance(
                #[trigger] source@.take(i + 1).take(k),
            ) >= 0 by {
                assert(source@.take(i + 1).take(k) =~= source@.take(k));
                if k <= i {
                    assert(source@.take(i as int).take(k) =~= source@.take(k));
                    assert(balance(source@.take(i as int).take(k)) >= 0);
                }
            }
        }
        i = i + 1;
    }
    proof {
        assert(source@.take(i as int) =~= source@);
    }
    if counter != 0 {
        return Err(ParseError::MissingCloseBracket);
    }
    Ok(bytecode)
}

} // verus!
