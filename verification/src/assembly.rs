//! The assembly back end: lowers IR to NASM-syntax x86-64 text for Linux.
//!
//! Register convention: `rsp` doubles as the tape pointer (the tape lives
//! directly below the original stack top), `edx` is pre-loaded with 1 for the
//! one-byte `read`/`write` syscalls.  Bracket pairs become `L{n}` / `L{n}_`
//! label pairs from a monotonic counter.

use vstd::prelude::*;
use crate::ir::{
    IrOp, Op, bracket_of, ir_balance, ir_prefix_ok, lemma_sum_of_take_step, op_weight, ops,
};

verus! {

/// The decimal digits of a nonnegative number, most significant first.
pub open spec fn dec_u(n: int) -> Seq<u8>
    recommends
        n >= 0,
    decreases n,
{
    if n < 10 {
        seq![(48 + n) as u8]
    } else {
        dec_u(n / 10) + seq![(48 + n % 10) as u8]
    }
}

/// The decimal rendering of an integer, with a leading minus sign when
/// negative.
pub open spec fn dec(n: int) -> Seq<u8> {
    if n < 0 {
        seq![45u8] + dec_u(-n)
    } else {
        dec_u(n)
    }
}

pub open spec fn nl() -> Seq<u8> {
    seq![10u8]
}

pub open spec fn txt_prologue() -> Seq<u8> {
    seq![
        115u8, 101u8, 99u8, 116u8, 105u8, 111u8, 110u8, 32u8, 46u8, 116u8, 101u8, 120u8, 116u8, 10u8,
        103u8, 108u8, 111u8, 98u8, 97u8, 108u8, 32u8, 95u8, 115u8, 116u8, 97u8, 114u8, 116u8, 10u8,
        95u8, 115u8, 116u8, 97u8, 114u8, 116u8, 58u8, 10u8,
        115u8, 117u8, 98u8, 32u8, 114u8, 115u8, 112u8, 44u8, 32u8, 49u8, 10u8,
        109u8, 111u8, 118u8, 32u8, 101u8, 100u8, 120u8, 44u8, 32u8, 49u8, 10u8,
    ]
}

pub open spec fn txt_epilogue() -> Seq<u8> {
    seq![
        109u8, 111u8, 118u8, 32u8, 101u8, 97u8, 120u8, 44u8, 32u8, 48u8, 120u8, 51u8, 99u8, 10u8,
        120u8, 111u8, 114u8, 32u8, 101u8, 100u8, 105u8, 44u8, 32u8, 101u8, 100u8, 105u8, 10u8,
        115u8, 121u8, 115u8, 99u8, 97u8, 108u8, 108u8, 10u8,
    ]
}

pub open spec fn txt_sub_rsp() -> Seq<u8> {
    seq![115u8, 117u8, 98u8, 32u8, 114u8, 115u8, 112u8, 44u8, 32u8]
}

pub open spec fn txt_add_byte() -> Seq<u8> {
    seq![97u8, 100u8, 100u8, 32u8, 66u8, 89u8, 84u8, 69u8, 32u8, 91u8, 114u8, 115u8, 112u8, 45u8]
}

pub open spec fn txt_bracket_comma() -> Seq<u8> {
    seq![93u8, 44u8, 32u8]
}

pub open spec fn txt_write_head() -> Seq<u8> {
    seq![
        109u8, 111u8, 118u8, 32u8, 101u8, 97u8, 120u8, 44u8, 32u8, 49u8, 10u8,
        109u8, 111u8, 118u8, 32u8, 101u8, 100u8, 105u8, 44u8, 32u8, 49u8, 10u8,
        108u8, 101u8, 97u8, 32u8, 114u8, 115u8, 105u8, 44u8, 32u8, 91u8, 114u8, 115u8, 112u8, 45u8,
    ]
}

pub open spec fn txt_read_head() -> Seq<u8> {
    seq![
        120u8, 111u8, 114u8, 32u8, 101u8, 97u8, 120u8, 44u8, 32u8, 101u8, 97u8, 120u8, 10u8,
        120u8, 111u8, 114u8, 32u8, 101u8, 100u8, 105u8, 44u8, 32u8, 101u8, 100u8, 105u8, 10u8,
        108u8, 101u8, 97u8, 32u8, 114u8, 115u8, 105u8, 44u8, 32u8, 91u8, 114u8, 115u8, 112u8, 45u8,
    ]
}

pub open spec fn txt_bracket_syscall() -> Seq<u8> {
    seq![93u8, 10u8, 115u8, 121u8, 115u8, 99u8, 97u8, 108u8, 108u8, 10u8]
}

pub open spec fn txt_cmp_byte() -> Seq<u8> {
    seq![99u8, 109u8, 112u8, 32u8, 66u8, 89u8, 84u8, 69u8, 32u8, 91u8, 114u8, 115u8, 112u8, 45u8]
}

pub open spec fn txt_bracket_zero() -> Seq<u8> {
    seq![93u8, 44u8, 32u8, 48u8, 10u8]
}

pub open spec fn txt_je_label() -> Seq<u8> {
    seq![106u8, 101u8, 32u8, 76u8]
}

pub open spec fn txt_jne_label() -> Seq<u8> {
    seq![106u8, 110u8, 101u8, 32u8, 76u8]
}

pub open spec fn txt_label() -> Seq<u8> {
    seq![76u8]
}

pub open spec fn txt_underscore_nl() -> Seq<u8> {
    seq![95u8, 10u8]
}

pub open spec fn txt_colon_nl() -> Seq<u8> {
    seq![58u8, 10u8]
}

pub open spec fn txt_underscore_colon_nl() -> Seq<u8> {
    seq![95u8, 58u8, 10u8]
}

/// The assembly of one open bracket under label number `n`:
/// `cmp BYTE [rsp-u], 0` / `je L{n}_` / `L{n}:`.
pub open spec fn jz_text(u: int, n: int) -> Seq<u8> {
    txt_cmp_byte() + dec(u) + txt_bracket_zero() + txt_je_label() + dec(n) + txt_underscore_nl()
        + txt_label() + dec(n) + txt_colon_nl()
}

/// The assembly of one close bracket under label number `n`:
/// `cmp BYTE [rsp-u], 0` / `jne L{n}` / `L{n}_:`.
pub open spec fn jnz_text(u: int, n: int) -> Seq<u8> {
    txt_cmp_byte() + dec(u) + txt_bracket_zero() + txt_jne_label() + dec(n) + nl() + txt_label()
        + dec(n) + txt_underscore_colon_nl()
}

/// The assembly back end's running state: text so far, next fresh label
/// number, and the label numbers of the still-open brackets.
pub struct AsmState {
    pub out: Seq<u8>,
    pub count: int,
    pub stack: Seq<int>,
}

pub open spec fn asm_step(st: AsmState, op: Op) -> AsmState {
    match op {
        Op::NoOperation => st,
        Op::MovePointer { delta } => AsmState {
            out: st.out + txt_sub_rsp() + dec(delta) + nl(),
            ..st
        },
        Op::AddToCell { value, offset } => AsmState {
            out: st.out + txt_add_byte() + dec(offset) + txt_bracket_comma() + dec(value) + nl(),
            ..st
        },
        Op::WriteByte { offset } => AsmState {
            out: st.out + txt_write_head() + dec(offset) + txt_bracket_syscall(),
            ..st
        },
        Op::ReadByte { offset } => AsmState {
            out: st.out + txt_read_head() + dec(offset) + txt_bracket_syscall(),
            ..st
        },
        Op::JumpIfZero { offset } => AsmState {
            out: st.out + jz_text(offset, st.count),
            count: st.count + 1,
            stack: st.stack.push(st.count),
        },
        Op::JumpIfNotZero { offset } => {
            if st.stack.len() == 0 {
                st
            } else {
                AsmState {
                    out: st.out + jnz_text(offset, st.stack.last()),
                    count: st.count,
                    stack: st.stack.drop_last(),
                }
            }
        },
    }
}

pub open spec fn asm_init() -> AsmState {
    AsmState { out: txt_prologue(), count: 0, stack: Seq::empty() }
}

pub open spec fn asm_fold(p: Seq<Op>) -> AsmState
    decreases p.len(),
{
    if p.len() == 0 {
        asm_init()
    } else {
        asm_step(asm_fold(p.drop_last()), p.last())
    }
}

/// The complete assembly text of a program.
pub open spec fn asm_spec(p: Seq<Op>) -> Seq<u8> {
    asm_fold(p).out + txt_epilogue()
}

proof fn lemma_asm_take_step(p: Seq<Op>, i: int)
    requires
        0 <= i < p.len(),
    ensures
        asm_fold(p.take(i + 1)) == asm_step(asm_fold(p.take(i)), p[i]),
{
    assert(p.take(i + 1).drop_last() =~= p.take(i));
    assert(p.take(i + 1).last() == p[i]);
}

/// Append the bytes of a slice.
fn push_bytes(out: &mut Vec<u8>, bytes: &[u8])
    ensures
        final(out)@ == old(out)@ + bytes@,
{
    let mut i: usize = 0;
    while i < bytes.len()
        invariant
            0 <= i <= bytes@.len(),
            out@ == old(out)@ + bytes@.take(i as int),
        decreases bytes@.len() - i,
    {
        let ghost pre = out@;
        out.push(bytes[i]);
        proof {
            assert(out@ =~= old(out)@ + bytes@.take(i as int + 1));
        }
        i = i + 1;
    }
    proof {
        assert(bytes@.take(i as int) =~= bytes@);
    }
}

/// Append the decimal digits of a nonnegative number.
fn push_dec_u(out: &mut Vec<u8>, n: u64)
    ensures
        final(out)@ == old(out)@ + dec_u(n as int),
    decreases n,
{
    if n < 10 {
        out.push(48 + (n as u8));
        proof {
            assert(out@ =~= old(out)@ + dec_u(n as int));
        }
    } else {
        push_dec_u(out, n / 10);
        let ghost mid = out@;
        out.push(48 + ((n % 10) as u8));
        proof {
            assert(out@ =~= old(out)@ + dec_u(n as int));
        }
    }
}

/// Append the decimal rendering of an integer.
fn push_dec(out: &mut Vec<u8>, n: i64)
    requires
        n as int > -0x8000000000000000,
    ensures
        final(out)@ == old(out)@ + dec(n as int),
{
    if n < 0 {
        out.push(45);
        let ghost mid = out@;
        push_dec_u(out, (-n) as u64);
        proof {
            assert(out@ =~= old(out)@ + dec(n as int));
        }
    } else {
        push_dec_u(out, n as u64);
    }
}

/// Lower IR to NASM-syntax assembly text, ready to be written to a file and
/// handed to an external assembler and linker.
#[verifier::rlimit(100)]
pub fn generate_assembly(bytecode: &Vec<IrOp>) -> (r: Vec<u8>)
    requires
        ir_prefix_ok(ops(bytecode@)),
        bytecode@.len() <= 0x10000000,
        forall|k: int|
            0 <= k < ops(bytecode@).len() ==> op_weight(#[trigger] ops(bytecode@)[k])
                <= i64::MAX,
    ensures
        r@ == asm_spec(ops(bytecode@)),
{
    let ghost p = ops(bytecode@);
    let mut out: Vec<u8> = Vec::new();
    let lit_prologue: [u8; 47] = [
        115u8, 101u8, 99u8, 116u8, 105u8, 111u8, 110u8, 32u8, 46u8, 116u8, 101u8, 120u8, 116u8, 10u8,
        103u8, 108u8, 111u8, 98u8, 97u8, 108u8, 32u8, 95u8, 115u8, 116u8, 97u8, 114u8, 116u8, 10u8,
        95u8, 115u8, 116u8, 97u8, 114u8, 116u8, 58u8, 10u8,
        115u8, 117u8, 98u8, 32u8, 114u8, 115u8, 112u8, 44u8, 32u8, 49u8, 10u8,
    ];
    push_bytes(&mut out, lit_prologue.as_slice());
    let lit_edx: [u8; 11] = [109u8, 111u8, 118u8, 32u8, 101u8, 100u8, 120u8, 44u8, 32u8, 49u8, 10u8];
    push_bytes(&mut out, lit_edx.as_slice());
    proof {
        assert(out@ =~= txt_prologue());
    }
    let mut count: usize = 0;
    let mut stack: Vec<usize> = Vec::new();
    let mut i: usize = 0;

    while i < bytecode.len()
        invariant
            0 <= i <= bytecode@.len(),
            p == ops(bytecode@),
            ir_prefix_ok(p),
            bytecode@.len() <= 0x10000000,
            forall|k: int| 0 <= k < p.len() ==> op_weight(#[trigger] p[k]) <= i64::MAX,
            out@ == asm_fold(p.take(i as int)).out,
            count as int == asm_fold(p.take(i as int)).count,
            count <= i,
            crate::elf::posns_of(stack@) == asm_fold(p.take(i as int)).stack,
            stack@.len() as int == ir_balance(p.take(i as int)),
            forall|k: int| 0 <= k < stack@.len() ==> #[trigger] stack@[k] < count,
        decreases bytecode@.len() - i,
    {
        let op = bytecode[i];
        let ghost st = asm_fold(p.take(i as int));
        proof {
            lemma_asm_take_step(p, i as int);
            lemma_sum_of_take_step(p, |o: Op| bracket_of(o), i as int);
            lemma_sum_of_take_step(p, |o: Op| op_weight(o), i as int);
            assert(op@ == p[i as int]);
            assert(op_weight(op@) <= i64::MAX);
        }
        let ghost pre = out@;
        match op {
            IrOp::NoOperation => {
                proof {
                    assert(asm_fold(p.take(i as int + 1)).out =~= pre);
                }
            },
            IrOp::MovePointer { delta } => {
                let lit: [u8; 9] = [115u8, 117u8, 98u8, 32u8, 114u8, 115u8, 112u8, 44u8, 32u8];
                push_bytes(&mut out, lit.as_slice());
                proof {
                    assert(lit@ =~= txt_sub_rsp());
                }
                push_dec(&mut out, delta);
                out.push(10u8);
                proof {
                    assert(out@ =~= pre + txt_sub_rsp() + dec(delta as int) + nl());
                }
            },
            IrOp::AddToCell { value, offset } => {
                let lit: [u8; 14] = [
                    97u8, 100u8, 100u8, 32u8, 66u8, 89u8, 84u8, 69u8, 32u8, 91u8, 114u8, 115u8, 112u8,
                    45u8,
                ];
                push_bytes(&mut out, lit.as_slice());
                proof {
                    assert(lit@ =~= txt_add_byte());
                }
                push_dec(&mut out, offset);
                let lit2: [u8; 3] = [93u8, 44u8, 32u8];
                push_bytes(&mut out, lit2.as_slice());
                proof {
                    assert(lit2@ =~= txt_bracket_comma());
                }
                push_dec(&mut out, value);
                out.push(10u8);
                proof {
                    assert(out@ =~= pre + txt_add_byte() + dec(offset as int)
                        + txt_bracket_comma() + dec(value as int) + nl());
                }
            },
            IrOp::WriteByte { offset } => {
                let lit: [u8; 36] = [
                    109u8, 111u8, 118u8, 32u8, 101u8, 97u8, 120u8, 44u8, 32u8, 49u8, 10u8,
                    109u8, 111u8, 118u8, 32u8, 101u8, 100u8, 105u8, 44u8, 32u8, 49u8, 10u8,
                    108u8, 101u8, 97u8, 32u8, 114u8, 115u8, 105u8, 44u8, 32u8, 91u8, 114u8, 115u8, 112u8,
                    45u8,
                ];
                push_bytes(&mut out, lit.as_slice());
                proof {
                    assert(lit@ =~= txt_write_head());
                }
                push_dec(&mut out, offset);
                let lit2: [u8; 10] = [93u8, 10u8, 115u8, 121u8, 115u8, 99u8, 97u8, 108u8, 108u8, 10u8];
                push_bytes(&mut out, lit2.as_slice());
                proof {
                    assert(lit2@ =~= txt_bracket_syscall());
                    assert(out@ =~= pre + txt_write_head() + dec(offset as int)
                        + txt_bracket_syscall());
                }
            },
            IrOp::ReadByte { offset } => {
                let lit: [u8; 40] = [
                    120u8, 111u8, 114u8, 32u8, 101u8, 97u8, 120u8, 44u8, 32u8, 101u8, 97u8, 120u8, 10u8,
                    120u8, 111u8, 114u8, 32u8, 101u8, 100u8, 105u8, 44u8, 32u8, 101u8, 100u8, 105u8, 10u8,
                    108u8, 101u8, 97u8, 32u8, 114u8, 115u8, 105u8, 44u8, 32u8, 91u8, 114u8, 115u8, 112u8,
                    45u8,
                ];
                push_bytes(&mut out, lit.as_slice());
                proof {
                    assert(lit@ =~= txt_read_head());
                }
                push_dec(&mut out, offset);
                let lit2: [u8; 10] = [93u8, 10u8, 115u8, 121u8, 115u8, 99u8, 97u8, 108u8, 108u8, 10u8];
                push_bytes(&mut out, lit2.as_slice());
                proof {
                    assert(lit2@ =~= txt_bracket_syscall());
                    assert(out@ =~= pre + txt_read_head() + dec(offset as int)
                        + txt_bracket_syscall());
                }
            },
            IrOp::JumpIfZero { offset } => {
                let lit: [u8; 14] = [
                    99u8, 109u8, 112u8, 32u8, 66u8, 89u8, 84u8, 69u8, 32u8, 91u8, 114u8, 115u8, 112u8,
                    45u8,
                ];
                push_bytes(&mut out, lit.as_slice());
                proof {
                    assert(lit@ =~= txt_cmp_byte());
                }
                push_dec(&mut out, offset);
                let lit2: [u8; 5] = [93u8, 44u8, 32u8, 48u8, 10u8];
                push_bytes(&mut out, lit2.as_slice());
                let lit3: [u8; 4] = [106u8, 101u8, 32u8, 76u8];
                push_bytes(&mut out, lit3.as_slice());
                push_dec(&mut out, count as i64);
                let lit4: [u8; 2] = [95u8, 10u8];
                push_bytes(&mut out, lit4.as_slice());
                out.push(76u8);
                push_dec(&mut out, count as i64);
                let lit5: [u8; 2] = [58u8, 10u8];
                push_bytes(&mut out, lit5.as_slice());
                let ghost prestack = stack@;
                stack.push(count);
                count = count + 1;
                proof {
                    assert(lit2@ =~= txt_bracket_zero());
                    assert(lit3@ =~= txt_je_label());
                    assert(lit4@ =~= txt_underscore_nl());
                    assert(lit5@ =~= txt_colon_nl());
                    assert(seq![76u8] =~= txt_label());
                    assert(out@ =~= pre + jz_text(offset as int, st.count));
                    assert(crate::elf::posns_of(stack@) =~= st.stack.push(st.count));
                }
            },
            IrOp::JumpIfNotZero { offset } => {
                proof {
                    assert(ir_balance(p.take(i as int + 1)) >= 0);
                    assert(stack@.len() >= 1);
                }
                let label = stack[stack.len() - 1];
                stack.pop();
                proof {
                    assert(label as int == st.stack.last());
                    assert(crate::elf::posns_of(stack@) =~= st.stack.drop_last());
                }
                let lit: [u8; 14] = [
                    99u8, 109u8, 112u8, 32u8, 66u8, 89u8, 84u8, 69u8, 32u8, 91u8, 114u8, 115u8, 112u8,
                    45u8,
                ];
                push_bytes(&mut out, lit.as_slice());
                proof {
                    assert(lit@ =~= txt_cmp_byte());
                }
                push_dec(&mut out, offset);
                let lit2: [u8; 5] = [93u8, 44u8, 32u8, 48u8, 10u8];
                push_bytes(&mut out, lit2.as_slice());
                let lit3: [u8; 5] = [106u8, 110u8, 101u8, 32u8, 76u8];
                push_bytes(&mut out, lit3.as_slice());
                push_dec(&mut out, label as i64);
                out.push(10u8);
                out.push(76u8);
                push_dec(&mut out, label as i64);
                let lit4: [u8; 3] = [95u8, 58u8, 10u8];
                push_bytes(&mut out, lit4.as_slice());
                proof {
                    assert(lit2@ =~= txt_bracket_zero());
                    assert(lit3@ =~= txt_jne_label());
                    assert(lit4@ =~= txt_underscore_colon_nl());
                    assert(seq![76u8] =~= txt_label());
                    assert(seq![10u8] =~= nl());
                    assert(out@ =~= pre + jnz_text(offset as int, label as int));
                }
            },
        }
        i = i + 1;
    }
    proof {
        assert(p.take(i as int) =~= p);
    }
    let lit_epi: [u8; 35] = [
        109u8, 111u8, 118u8, 32u8, 101u8, 97u8, 120u8, 44u8, 32u8, 48u8, 120u8, 51u8, 99u8, 10u8,
        120u8, 111u8, 114u8, 32u8, 101u8, 100u8, 105u8, 44u8, 32u8, 101u8, 100u8, 105u8, 10u8,
        115u8, 121u8, 115u8, 99u8, 97u8, 108u8, 108u8, 10u8,
    ];
    let ghost preout = out@;
    push_bytes(&mut out, lit_epi.as_slice());
    proof {
        assert(lit_epi@ =~= txt_epilogue());
        assert(out@ == preout + txt_epilogue());
    }
    out
}

} // verus!
