//! The direct back end: emits x86-64 machine code bytes for parser-shaped IR,
//! patches bracket jump displacements in place, and wraps the code in a
//! minimal single-segment ELF64 executable image.
//!
//! Register convention: `rsi` is the tape pointer; the tape is 0x8000 bytes
//! carved from the stack at entry (`sub rsp, 0x8000; mov rsi, rsp`).

use vstd::prelude::*;
use crate::ir::{
    IrOp, Op, bracket_of, ir_balance, ir_prefix_ok, lemma_sum_of_take_step, ops, parser_shaped,
    parser_shaped_op,
};

verus! {

/// The four bytes of `v mod 2^32`, little-endian.
#[verifier::opaque]
pub open spec fn le4(v: int) -> Seq<u8> {
    seq![
        (v % 256) as u8,
        ((v / 256) % 256) as u8,
        ((v / 65536) % 256) as u8,
        ((v / 16777216) % 256) as u8,
    ]
}

/// The eight bytes of `v mod 2^64`, little-endian.
#[verifier::opaque]
pub open spec fn le8(v: int) -> Seq<u8> {
    seq![
        (v % 256) as u8,
        ((v / 256) % 256) as u8,
        ((v / 65536) % 256) as u8,
        ((v / 16777216) % 256) as u8,
        ((v / 0x100000000) % 256) as u8,
        ((v / 0x10000000000) % 256) as u8,
        ((v / 0x1000000000000) % 256) as u8,
        ((v / 0x100000000000000) % 256) as u8,
    ]
}

/// The unsigned value of a 4-byte little-endian field.
pub open spec fn le4_val(s: Seq<u8>) -> int {
    s[0] + 256 * s[1] + 65536 * s[2] + 16777216 * s[3]
}

/// The value of a 4-byte little-endian field read as a signed (two's
/// complement) 32-bit quantity, as in an x86 `rel32` displacement.
pub open spec fn rel32_val(s: Seq<u8>) -> int {
    if le4_val(s) >= 0x80000000 {
        le4_val(s) - 0x100000000
    } else {
        le4_val(s)
    }
}

/// The unsigned value of a 2-byte little-endian field.
pub open spec fn le2_val(s: Seq<u8>) -> int {
    s[0] + 256 * s[1]
}

/// The unsigned value of an 8-byte little-endian field.
pub open spec fn le8_val(s: Seq<u8>) -> int {
    s[0] + 256 * s[1] + 65536 * s[2] + 16777216 * s[3] + 0x100000000 * s[4] + 0x10000000000 * s[5]
        + 0x1000000000000 * s[6] + 0x100000000000000 * s[7]
}

pub proof fn lemma_le4_len(v: int)
    ensures
        le4(v).len() == 4,
{
    reveal(le4);
}

pub proof fn lemma_le8_len(v: int)
    ensures
        le8(v).len() == 8,
{
    reveal(le8);
}

pub proof fn lemma_le4_roundtrip(v: int)
    requires
        0 <= v < 0x100000000,
    ensures
        le4_val(le4(v)) == v,
{
    reveal(le4);
}

pub proof fn lemma_le8_roundtrip(v: int)
    requires
        0 <= v < 0x10000000000000000,
    ensures
        le8_val(le8(v)) == v,
{
    reveal(le8);
    let r1 = v / 256;
    let r2 = v / 65536;
    let r3 = v / 16777216;
    let r4 = v / 0x100000000;
    let r5 = v / 0x10000000000;
    let r6 = v / 0x1000000000000;
    let r7 = v / 0x100000000000000;
    vstd::arithmetic::div_mod::lemma_div_denominator(v, 256, 256);
    vstd::arithmetic::div_mod::lemma_div_denominator(v, 65536, 256);
    vstd::arithmetic::div_mod::lemma_div_denominator(v, 16777216, 256);
    vstd::arithmetic::div_mod::lemma_div_denominator(v, 0x100000000, 256);
    vstd::arithmetic::div_mod::lemma_div_denominator(v, 0x10000000000, 256);
    vstd::arithmetic::div_mod::lemma_div_denominator(v, 0x1000000000000, 256);
    vstd::arithmetic::div_mod::lemma_fundamental_div_mod(v, 256);
    vstd::arithmetic::div_mod::lemma_fundamental_div_mod(r1, 256);
    vstd::arithmetic::div_mod::lemma_fundamental_div_mod(r2, 256);
    vstd::arithmetic::div_mod::lemma_fundamental_div_mod(r3, 256);
    vstd::arithmetic::div_mod::lemma_fundamental_div_mod(r4, 256);
    vstd::arithmetic::div_mod::lemma_fundamental_div_mod(r5, 256);
    vstd::arithmetic::div_mod::lemma_fundamental_div_mod(r6, 256);
    assert(r7 < 256) by {
        vstd::arithmetic::div_mod::lemma_div_is_ordered(v, 0xffffffffffffffff, 0x100000000000000);
    }
    assert(r7 >= 0) by {
        vstd::arithmetic::div_mod::lemma_div_pos_is_pos(v, 0x100000000000000);
    }
    assert(r7 % 256 == r7) by {
        vstd::arithmetic::div_mod::lemma_small_mod(r7 as nat, 256);
    }
}

/// Machine code of the tape setup at program entry:
/// `sub rsp, 0x8000; mov rsi, rsp`.
pub open spec fn prologue_bytes() -> Seq<u8> {
    seq![0x48u8, 0x81u8, 0xECu8, 0x00u8, 0x80u8, 0x00u8, 0x00u8, 0x48u8, 0x89u8, 0xE6u8]
}

/// Machine code of the exit epilogue: `mov eax, 60; xor edi, edi; syscall`.
pub open spec fn epilogue_bytes() -> Seq<u8> {
    seq![0xB8u8, 0x3Cu8, 0x00u8, 0x00u8, 0x00u8, 0x31u8, 0xFFu8, 0x0Fu8, 0x05u8]
}

/// Machine code of one non-bracket, parser-shaped op.
pub open spec fn fixed_bytes(o: Op) -> Seq<u8> {
    match o {
        Op::MovePointer { delta } => {
            if delta == 1 {
                seq![0x48u8, 0x83u8, 0xC6u8, 0x01u8]  // add rsi, 1
            } else {
                seq![0x48u8, 0x83u8, 0xEEu8, 0x01u8]  // sub rsi, 1
            }
        },
        Op::AddToCell { value, offset: _ } => {
            if value == 1 {
                seq![0x80u8, 0x06u8, 0x01u8]  // add byte [rsi], 1
            } else {
                seq![0x80u8, 0x2Eu8, 0x01u8]  // sub byte [rsi], 1
            }
        },
        Op::WriteByte { .. } => {
            // mov eax, 1; mov edi, 1; mov edx, 1; syscall
            seq![
                0xB8u8, 0x01u8, 0x00u8, 0x00u8, 0x00u8,
                0xBFu8, 0x01u8, 0x00u8, 0x00u8, 0x00u8,
                0xBAu8, 0x01u8, 0x00u8, 0x00u8, 0x00u8,
                0x0Fu8, 0x05u8,
            ]
        },
        Op::ReadByte { .. } => {
            // xor eax, eax; xor edi, edi; mov edx, 1; syscall
            seq![
                0x31u8, 0xC0u8, 0x31u8, 0xFFu8,
                0xBAu8, 0x01u8, 0x00u8, 0x00u8, 0x00u8,
                0x0Fu8, 0x05u8,
            ]
        },
        _ => Seq::empty(),
    }
}

/// `cmp byte [rsi], 0; je rel32` with a placeholder displacement.
pub open spec fn jz_bytes() -> Seq<u8> {
    seq![0x80u8, 0x3Eu8, 0x00u8, 0x0Fu8, 0x84u8, 0x00u8, 0x00u8, 0x00u8, 0x00u8]
}

/// `cmp byte [rsi], 0; jne` without its displacement.
pub open spec fn jnz_head() -> Seq<u8> {
    seq![0x80u8, 0x3Eu8, 0x00u8, 0x0Fu8, 0x85u8]
}

/// Overwrite the four bytes of `s` at `at` with `b`.
pub open spec fn splice4(s: Seq<u8>, at: int, b: Seq<u8>) -> Seq<u8> {
    s.take(at) + b + s.skip(at + 4)
}

/// The emitter's running state: the code bytes so far, the byte positions
/// just past the placeholder displacement of each still-open bracket, and the
/// `(open_end, close_end)` positions of every completed bracket pair.
pub struct EmitState {
    pub code: Seq<u8>,
    pub stack: Seq<int>,
    pub pairs: Seq<(int, int)>,
}

/// One step of machine-code emission.  An open bracket emits a compare and a
/// `je` with a placeholder displacement and records the position after it; a
/// close bracket pops that position, patches the forward displacement
/// `close_end - open_end` into the placeholder, and emits its own backward
/// displacement `open_end - close_end` in two's complement.
pub open spec fn emit_step(st: EmitState, op: Op) -> EmitState {
    match op {
        Op::JumpIfZero { .. } => EmitState {
            code: st.code + jz_bytes(),
            stack: st.stack.push(st.code.len() + 9int),
            pairs: st.pairs,
        },
        Op::JumpIfNotZero { .. } => {
            if st.stack.len() == 0 {
                st
            } else {
                let open_end = st.stack.last();
                let close_end = st.code.len() + 9int;
                EmitState {
                    code: splice4(st.code, open_end - 4, le4(close_end - open_end)) + jnz_head()
                        + le4((open_end - close_end) % 0x100000000),
                    stack: st.stack.drop_last(),
                    pairs: st.pairs.push((open_end, close_end)),
                }
            }
        },
        _ => EmitState { code: st.code + fixed_bytes(op), ..st },
    }
}

pub open spec fn emit_init() -> EmitState {
    EmitState { code: prologue_bytes(), stack: Seq::empty(), pairs: Seq::empty() }
}

pub open spec fn emit_fold(p: Seq<Op>) -> EmitState
    decreases p.len(),
{
    if p.len() == 0 {
        emit_init()
    } else {
        emit_step(emit_fold(p.drop_last()), p.last())
    }
}

/// The full machine code of a program: prologue, lowered ops with patched
/// displacements, exit epilogue.
pub open spec fn emit_spec(p: Seq<Op>) -> Seq<u8> {
    emit_fold(p).code + epilogue_bytes()
}

proof fn lemma_emit_take_step(p: Seq<Op>, i: int)
    requires
        0 <= i < p.len(),
    ensures
        emit_fold(p.take(i + 1)) == emit_step(emit_fold(p.take(i)), p[i]),
{
    assert(p.take(i + 1).drop_last() =~= p.take(i));
    assert(p.take(i + 1).last() == p[i]);
}

/// The model sequence of the executable stack of patch positions.
pub open spec fn posns_of(s: Seq<usize>) -> Seq<int> {
    s.map_values(|x: usize| x as int)
}

/// Structural facts about the emitter state after consuming `n` ops at
/// bracket balance `bal`: code size is linear in the op count, the patch
/// stack ascends in steps of at least one instruction, and every completed
/// pair lies inside the code with its two displacement fields in place.
pub open spec fn emit_inv(st: EmitState, n: int, bal: int) -> bool {
    &&& 10 <= st.code.len() <= 10 + 17 * n
    &&& st.stack.len() == bal
    &&& forall|k: int| 0 <= k < st.stack.len() ==> 19 <= #[trigger] st.stack[k] <= st.code.len()
    &&& forall|j: int, k: int|
        #![trigger st.stack[j], st.stack[k]]
        0 <= j < k < st.stack.len() ==> st.stack[j] + 9 <= st.stack[k]
    &&& forall|k: int| 0 <= k < st.pairs.len() ==> {
        let (oe, ce) = #[trigger] st.pairs[k];
        &&& 19 <= oe
        &&& oe < ce <= st.code.len()
        &&& ce - oe < 0x80000000
        &&& st.code.subrange(oe - 4, oe) == le4(ce - oe)
        &&& st.code.subrange(ce - 4, ce) == le4((oe - ce) % 0x100000000)
    }
    &&& forall|j: int, k: int|
        #![trigger st.stack[j], st.pairs[k]]
        0 <= j < st.stack.len() && 0 <= k < st.pairs.len() ==> (st.pairs[k].1 <= st.stack[j] - 9
            || st.pairs[k].0 >= st.stack[j] + 9)
}

proof fn lemma_append_window(s: Seq<u8>, t: Seq<u8>, lo: int, hi: int)
    requires
        0 <= lo <= hi <= s.len(),
    ensures
        (s + t).subrange(lo, hi) == s.subrange(lo, hi),
{
    assert((s + t).subrange(lo, hi) =~= s.subrange(lo, hi));
}

proof fn lemma_tail_window(s: Seq<u8>, t: Seq<u8>)
    ensures
        (s + t).subrange(s.len() as int, s.len() + t.len() as int) == t,
{
    assert((s + t).subrange(s.len() as int, s.len() + t.len() as int) =~= t);
}

proof fn lemma_splice_window(s: Seq<u8>, at: int, b: Seq<u8>)
    requires
        b.len() == 4,
        0 <= at,
        at + 4 <= s.len(),
    ensures
        splice4(s, at, b).len() == s.len(),
        splice4(s, at, b).subrange(at, at + 4) == b,
{
    assert(s.skip(at + 4) =~= s.subrange(at + 4, s.len() as int));
    assert(splice4(s, at, b).subrange(at, at + 4) =~= b);
}

proof fn lemma_splice_outside(s: Seq<u8>, at: int, b: Seq<u8>, lo: int, hi: int)
    requires
        b.len() == 4,
        0 <= at,
        at + 4 <= s.len(),
        0 <= lo <= hi <= s.len(),
        hi <= at || lo >= at + 4,
    ensures
        splice4(s, at, b).subrange(lo, hi) == s.subrange(lo, hi),
{
    assert(s.skip(at + 4) =~= s.subrange(at + 4, s.len() as int));
    assert(splice4(s, at, b).subrange(lo, hi) =~= s.subrange(lo, hi));
}

/// One emission step preserves the structural invariant when it appends bytes
/// without touching the stack or the pairs.
proof fn lemma_emit_append_keeps_pairs(st: EmitState, st1: EmitState, n: int, bal: int)
    requires
        emit_inv(st, n, bal),
        st1.code.len() >= st.code.len(),
        st1.code.subrange(0, st.code.len() as int) == st.code,
        st1.stack == st.stack,
        st1.pairs == st.pairs,
    ensures
        forall|k: int| 0 <= k < st1.pairs.len() ==> {
            let (oe, ce) = #[trigger] st1.pairs[k];
            &&& 19 <= oe
            &&& oe < ce <= st1.code.len()
            &&& ce - oe < 0x80000000
            &&& st1.code.subrange(oe - 4, oe) == le4(ce - oe)
            &&& st1.code.subrange(ce - 4, ce) == le4((oe - ce) % 0x100000000)
        },
{
    assert forall|k: int| 0 <= k < st1.pairs.len() implies {
        let (oe, ce) = #[trigger] st1.pairs[k];
        &&& 19 <= oe
        &&& oe < ce <= st1.code.len()
        &&& ce - oe < 0x80000000
        &&& st1.code.subrange(oe - 4, oe) == le4(ce - oe)
        &&& st1.code.subrange(ce - 4, ce) == le4((oe - ce) % 0x100000000)
    } by {
        let (oe, ce) = st.pairs[k];
        assert(st1.code.subrange(oe - 4, oe) =~= st.code.subrange(oe - 4, oe));
        assert(st1.code.subrange(ce - 4, ce) =~= st.code.subrange(ce - 4, ce));
    }
}

#[verifier::spinoff_prover]
proof fn lemma_emit_step_fixed(st: EmitState, x: Op, n: int, bal: int)
    requires
        emit_inv(st, n, bal),
        !(x is JumpIfZero),
        !(x is JumpIfNotZero),
    ensures
        emit_inv(emit_step(st, x), n + 1, bal),
{
    let st1 = emit_step(st, x);
    assert(fixed_bytes(x).len() <= 17);
    assert(st1.code.subrange(0, st.code.len() as int) =~= st.code);
    lemma_emit_append_keeps_pairs(st, st1, n, bal);
}

#[verifier::rlimit(100)]
#[verifier::spinoff_prover]
proof fn lemma_emit_step_jz(st: EmitState, x: Op, n: int, bal: int)
    requires
        emit_inv(st, n, bal),
        x is JumpIfZero,
    ensures
        emit_inv(emit_step(st, x), n + 1, bal + 1),
{
    let st1 = emit_step(st, x);
    let s_new = st.code.len() + 9int;
    assert(st1.code == st.code + jz_bytes());
    assert(st1.stack == st.stack.push(s_new));
    assert(st1.pairs == st.pairs);
    assert(st1.code.len() == st.code.len() + 9);
    assert(st1.code.subrange(0, st.code.len() as int) =~= st.code);
    lemma_emit_append_keeps_pairs(st, EmitState { stack: st.stack, ..st1 }, n, bal);
    assert forall|k: int| 0 <= k < st1.stack.len() implies 19 <= #[trigger] st1.stack[k]
        <= st1.code.len() by {
        if k < st.stack.len() {
            assert(st1.stack[k] == st.stack[k]);
        } else {
            assert(st1.stack[k] == s_new);
        }
    }
    assert forall|j: int, k: int|
        #![trigger st1.stack[j], st1.stack[k]]
        0 <= j < k < st1.stack.len() implies st1.stack[j] + 9 <= st1.stack[k] by {
        if k < st.stack.len() {
            assert(st1.stack[j] == st.stack[j] && st1.stack[k] == st.stack[k]);
        } else {
            assert(st1.stack[k] == s_new);
            assert(st1.stack[j] == st.stack[j] && st.stack[j] <= st.code.len());
        }
    }
    assert forall|j: int, k: int|
        0 <= j < st1.stack.len() && 0 <= k < st1.pairs.len() implies (#[trigger] st1.pairs[k].1
        <= #[trigger] st1.stack[j] - 9 || st1.pairs[k].0 >= st1.stack[j] + 9) by {
        if j < st.stack.len() {
            assert(st1.stack[j] == st.stack[j]);
            assert(st.pairs[k].1 <= st.stack[j] - 9 || st.pairs[k].0 >= st.stack[j] + 9);
        } else {
            // the new entry sits past the end of the old code, after every
            // completed pair
            assert(st1.stack[j] == s_new);
            assert(st.pairs[k].1 <= st.code.len());
        }
    }
}

#[verifier::rlimit(100)]
#[verifier::spinoff_prover]
proof fn lemma_emit_step_jnz(st: EmitState, x: Op, n: int, bal: int)
    requires
        emit_inv(st, n, bal),
        x is JumpIfNotZero,
        bal >= 1,
        n <= 0x07000000,
    ensures
        emit_inv(emit_step(st, x), n + 1, bal - 1),
{
    let st1 = emit_step(st, x);
    let oe = st.stack.last();
    let ce = st.code.len() + 9int;
    let fb = le4(ce - oe);
    let bb = le4((oe - ce) % 0x100000000);
    lemma_le4_len(ce - oe);
    lemma_le4_len((oe - ce) % 0x100000000);
    let patched = splice4(st.code, oe - 4, fb);
    lemma_splice_window(st.code, oe - 4, fb);
    assert(st1.code == patched + jnz_head() + bb);
    assert(st1.stack == st.stack.drop_last());
    assert(st1.pairs == st.pairs.push((oe, ce)));
    assert(st1.code.len() == st.code.len() + 9);
    // The new pair's own two displacement fields.
    assert(st1.code.subrange(oe - 4, oe) == fb) by {
        lemma_append_window(patched, jnz_head(), oe - 4, oe);
        lemma_append_window(patched + jnz_head(), bb, oe - 4, oe);
    }
    assert(st1.code.subrange(ce - 4, ce) == bb) by {
        lemma_tail_window(patched + jnz_head(), bb);
        assert((patched + jnz_head()).len() == ce - 4);
    }
    // Old pairs are untouched: their windows avoid the patched region and lie
    // before the appended tail.
    assert forall|k: int| 0 <= k < st.pairs.len() implies {
        let (a, b) = #[trigger] st.pairs[k];
        &&& st1.code.subrange(a - 4, a) == st.code.subrange(a - 4, a)
        &&& st1.code.subrange(b - 4, b) == st.code.subrange(b - 4, b)
    } by {
        let (a, b) = st.pairs[k];
        let j = st.stack.len() - 1;
        assert(b <= st.stack[j] - 9 || a >= st.stack[j] + 9);
        lemma_append_window(patched, jnz_head(), a - 4, a);
        lemma_append_window(patched + jnz_head(), bb, a - 4, a);
        lemma_append_window(patched, jnz_head(), b - 4, b);
        lemma_append_window(patched + jnz_head(), bb, b - 4, b);
        lemma_splice_outside(st.code, oe - 4, fb, a - 4, a);
        lemma_splice_outside(st.code, oe - 4, fb, b - 4, b);
    }
    assert forall|k: int| 0 <= k < st1.pairs.len() implies {
        let (a, b) = #[trigger] st1.pairs[k];
        &&& 19 <= a
        &&& a < b <= st1.code.len()
        &&& b - a < 0x80000000
        &&& st1.code.subrange(a - 4, a) == le4(b - a)
        &&& st1.code.subrange(b - 4, b) == le4((a - b) % 0x100000000)
    } by {
        if k < st.pairs.len() {
            assert(st1.pairs[k] == st.pairs[k]);
        } else {
            assert(st1.pairs[k] == (oe, ce));
        }
    }
    assert forall|k: int| 0 <= k < st1.stack.len() implies 19 <= #[trigger] st1.stack[k]
        <= st1.code.len() by {
        assert(st1.stack[k] == st.stack[k]);
    }
    assert forall|j: int, k: int|
        0 <= j < st1.stack.len() && 0 <= k < st1.pairs.len() implies (#[trigger] st1.pairs[k].1
        <= #[trigger] st1.stack[j] - 9 || st1.pairs[k].0 >= st1.stack[j] + 9) by {
        assert(st1.stack[j] == st.stack[j]);
        if k < st.pairs.len() {
            assert(st1.pairs[k] == st.pairs[k]);
            assert(st.pairs[k].1 <= st.stack[j] - 9 || st.pairs[k].0 >= st.stack[j] + 9);
        } else {
            // the new pair opened after every remaining stack entry
            assert(st1.pairs[k] == (oe, ce));
            assert(st.stack[j] + 9 <= st.stack[st.stack.len() - 1]);
        }
    }
}

/// The invariant holds after any parser-shaped, bracket-clean prefix.
proof fn lemma_emit_inv(p: Seq<Op>)
    requires
        parser_shaped(p),
        ir_prefix_ok(p),
        p.len() <= 0x07000000,
    ensures
        emit_inv(emit_fold(p), p.len() as int, ir_balance(p)),
    decreases p.len(),
{
    if p.len() == 0 {
        assert(p.take(0) =~= p);
        assert(ir_balance(p) == 0);
    } else {
        let d = p.drop_last();
        let x = p.last();
        assert(parser_shaped(d) && ir_prefix_ok(d)) by {
            assert(forall|i: int| 0 <= i < d.len() ==> #[trigger] d[i] == p[i]);
            assert forall|i: int| 0 <= i <= d.len() implies ir_balance(#[trigger] d.take(i)) >= 0
            by {
                assert(d.take(i) =~= p.take(i));
                assert(ir_balance(p.take(i)) >= 0);
            }
        }
        lemma_emit_inv(d);
        let st = emit_fold(d);
        assert(ir_balance(p) == ir_balance(d) + bracket_of(x)) by {
            lemma_sum_of_take_step(p, |o: Op| bracket_of(o), p.len() - 1);
            assert(p.take(p.len() - 1) =~= d);
            assert(p.take(p.len() as int) =~= p);
        }
        assert(parser_shaped_op(x)) by {
            assert(p[p.len() - 1] == x);
        }
        match x {
            Op::JumpIfZero { .. } => {
                lemma_emit_step_jz(st, x, d.len() as int, ir_balance(d));
            },
            Op::JumpIfNotZero { .. } => {
                assert(ir_balance(p) >= 0) by {
                    assert(p.take(p.len() as int) =~= p);
                }
                lemma_emit_step_jnz(st, x, d.len() as int, ir_balance(d));
            },
            _ => {
                lemma_emit_step_fixed(st, x, d.len() as int, ir_balance(d));
            },
        }
    }
}

/// Append the code of one non-bracket op.
fn push_fixed(code: &mut Vec<u8>, op: IrOp)
    requires
        parser_shaped_op(op@),
        !(op@ is JumpIfZero),
        !(op@ is JumpIfNotZero),
    ensures
        final(code)@ == old(code)@ + fixed_bytes(op@),
{
    let ghost pre = code@;
    match op {
        IrOp::NoOperation => {
            proof {
                assert(pre + fixed_bytes(op@) =~= pre);
            }
        },
        IrOp::MovePointer { delta } => {
            code.push(0x48);
            code.push(0x83);
            if delta == 1 {
                code.push(0xC6);
            } else {
                code.push(0xEE);
            }
            code.push(0x01);
            proof {
                assert(code@ =~= pre + fixed_bytes(op@));
            }
        },
        IrOp::AddToCell { value, offset: _ } => {
            code.push(0x80);
            if value == 1 {
                code.push(0x06);
            } else {
                code.push(0x2E);
            }
            code.push(0x01);
            proof {
                assert(code@ =~= pre + fixed_bytes(op@));
            }
        },
        IrOp::WriteByte { offset: _ } => {
            code.push(0xB8);
            code.push(0x01);
            code.push(0x00);
            code.push(0x00);
            code.push(0x00);
            code.push(0xBF);
            code.push(0x01);
            code.push(0x00);
            code.push(0x00);
            code.push(0x00);
            code.push(0xBA);
            code.push(0x01);
            code.push(0x00);
            code.push(0x00);
            code.push(0x00);
            code.push(0x0F);
            code.push(0x05);
            proof {
                assert(code@ =~= pre + fixed_bytes(op@));
            }
        },
        IrOp::ReadByte { offset: _ } => {
            code.push(0x31);
            code.push(0xC0);
            code.push(0x31);
            code.push(0xFF);
            code.push(0xBA);
            code.push(0x01);
            code.push(0x00);
            code.push(0x00);
            code.push(0x00);
            code.push(0x0F);
            code.push(0x05);
            proof {
                assert(code@ =~= pre + fixed_bytes(op@));
            }
        },
        IrOp::JumpIfZero { offset: _ } => {
            proof {
                assert(false);
            }
        },
        IrOp::JumpIfNotZero { offset: _ } => {
            proof {
                assert(false);
            }
        },
    }
}

/// Append `cmp byte [rsi], 0; je` with a placeholder displacement.
fn push_open(code: &mut Vec<u8>)
    requires
        old(code)@.len() <= 0x77000000,
    ensures
        final(code)@ == old(code)@ + jz_bytes(),
{
    let ghost pre = code@;
    code.push(0x80);
    code.push(0x3E);
    code.push(0x00);
    code.push(0x0F);
    code.push(0x84);
    code.push(0x00);
    code.push(0x00);
    code.push(0x00);
    code.push(0x00);
    proof {
        assert(code@ =~= pre + jz_bytes());
    }
}

/// Close a bracket: patch the forward displacement into the open placeholder
/// ending at `open_end`, then append `cmp byte [rsi], 0; jne` with the
/// backward displacement, the exact negative of the forward one.
fn push_close(code: &mut Vec<u8>, open_end: usize)
    requires
        19 <= open_end <= old(code)@.len(),
        old(code)@.len() <= 0x77000000,
    ensures
        final(code)@ == splice4(
            old(code)@,
            open_end - 4,
            le4(old(code)@.len() + 9 - open_end),
        ) + jnz_head() + le4((open_end - (old(code)@.len() + 9int)) % 0x100000000),
{
    let ghost pre = code@;
    let close_end = code.len() + 9;
    let fwd = close_end - open_end;
    proof {
        assert(0 < fwd as int && (fwd as int) < 0x80000000);
    }
    // patch the forward displacement into the open placeholder
    code[open_end - 4] = (fwd % 256) as u8;
    code[open_end - 3] = ((fwd / 256) % 256) as u8;
    code[open_end - 2] = ((fwd / 65536) % 256) as u8;
    code[open_end - 1] = ((fwd / 16777216) % 256) as u8;
    proof {
        reveal(le4);
        assert(code@ =~= splice4(pre, open_end as int - 4, le4(fwd as int)));
    }
    let ghost patched = code@;
    // cmp byte [rsi], 0; jne
    code.push(0x80);
    code.push(0x3E);
    code.push(0x00);
    code.push(0x0F);
    code.push(0x85);
    // backward displacement: -(forward), two's complement
    let bk: u64 = 0x100000000u64 - (fwd as u64);
    proof {
        assert((open_end as int - close_end as int) % 0x100000000 == bk as int);
    }
    code.push((bk % 256) as u8);
    code.push(((bk / 256) % 256) as u8);
    code.push(((bk / 65536) % 256) as u8);
    code.push(((bk / 16777216) % 256) as u8);
    proof {
        reveal(le4);
        assert(code@ =~= patched + jnz_head() + le4(
            (open_end as int - close_end as int) % 0x100000000,
        ));
    }
}

/// Lower parser-shaped IR to x86-64 machine code with all bracket
/// displacements patched in.
#[verifier::rlimit(100)]
pub fn generate_machine_code(bytecode: &Vec<IrOp>) -> (r: Vec<u8>)
    requires
        parser_shaped(ops(bytecode@)),
        ir_prefix_ok(ops(bytecode@)),
        ir_balance(ops(bytecode@)) == 0,
        bytecode@.len() <= 0x07000000,
    ensures
        r@ == emit_spec(ops(bytecode@)),
        r@.len() <= 19 + 17 * bytecode@.len(),
{
    let ghost p = ops(bytecode@);
    let mut code: Vec<u8> = Vec::new();
    code.push(0x48);
    code.push(0x81);
    code.push(0xEC);
    code.push(0x00);
    code.push(0x80);
    code.push(0x00);
    code.push(0x00);
    code.push(0x48);
    code.push(0x89);
    code.push(0xE6);
    proof {
        assert(code@ =~= prologue_bytes());
    }
    let mut stack: Vec<usize> = Vec::new();
    let mut i: usize = 0;

    while i < bytecode.len()
        invariant
            0 <= i <= bytecode@.len(),
            p == ops(bytecode@),
            parser_shaped(p),
            ir_prefix_ok(p),
            ir_balance(p) == 0,
            bytecode@.len() <= 0x07000000,
            code@ == emit_fold(p.take(i as int)).code,
            posns_of(stack@) == emit_fold(p.take(i as int)).stack,
            code@.len() <= 10 + 17 * i,
        decreases bytecode@.len() - i,
    {
        let op = bytecode[i];
        let ghost st = emit_fold(p.take(i as int));
        proof {
            lemma_emit_take_step(p, i as int);
            lemma_sum_of_take_step(p, |o: Op| bracket_of(o), i as int);
            assert(parser_shaped(p.take(i as int)) && ir_prefix_ok(p.take(i as int))) by {
                assert(forall|k: int|
                    0 <= k < p.take(i as int).len() ==> #[trigger] p.take(i as int)[k] == p[k]);
                assert forall|k: int| 0 <= k <= p.take(i as int).len() implies ir_balance(
                    #[trigger] p.take(i as int).take(k),
                ) >= 0 by {
                    assert(p.take(i as int).take(k) =~= p.take(k));
                    assert(ir_balance(p.take(k)) >= 0);
                }
            }
            lemma_emit_inv(p.take(i as int));
            assert(op@ == p[i as int]);
            assert(parser_shaped_op(op@));
        }
        let ghost pre = code@;
        match op {
            IrOp::JumpIfZero { offset: _ } => {
                let ghost prestack = stack@;
                push_open(&mut code);
                stack.push(code.len());
                proof {
                    assert(posns_of(stack@) =~= posns_of(prestack).push(pre.len() + 9int));
                }
            },
            IrOp::JumpIfNotZero { offset: _ } => {
                proof {
                    assert(ir_balance(p.take(i as int + 1)) >= 0);
                    assert(st.stack.len() >= 1);
                    assert(stack@.len() >= 1);
                }
                let open_end = stack[stack.len() - 1];
                stack.pop();
                proof {
                    assert(open_end as int == st.stack.last());
                    assert(posns_of(stack@) =~= st.stack.drop_last());
                    assert(19 <= open_end as int <= pre.len());
                }
                push_close(&mut code, open_end);
                proof {
                    lemma_le4_len(pre.len() + 9 - open_end as int);
                    lemma_le4_len((open_end as int - (pre.len() + 9int)) % 0x100000000);
                    assert(code@.len() == pre.len() + 9);
                }
            },
            _ => {
                push_fixed(&mut code, op);
                proof {
                    assert(emit_fold(p.take(i as int + 1)).code == pre + fixed_bytes(op@));
                    assert(fixed_bytes(op@).len() <= 17);
                }
            },
        }
        i = i + 1;
    }
    proof {
        assert(p.take(i as int) =~= p);
    }
    let ghost precode = code@;
    code.push(0xB8);
    code.push(0x3C);
    code.push(0x00);
    code.push(0x00);
    code.push(0x00);
    code.push(0x31);
    code.push(0xFF);
    code.push(0x0F);
    code.push(0x05);
    proof {
        assert(code@ =~= precode + epilogue_bytes());
    }
    code
}

/// Every bracket pair the emitter completes carries exact-negative
/// displacements: the forward `rel32` patched at the open decodes to
/// `close_end - open_end`, the backward `rel32` at the close decodes to
/// `open_end - close_end`, and the two sum to zero.
pub proof fn lemma_jump_displacements_cancel(p: Seq<Op>)
    requires
        parser_shaped(p),
        ir_prefix_ok(p),
        p.len() <= 0x07000000,
    ensures
        forall|k: int| 0 <= k < emit_fold(p).pairs.len() ==> {
            let (oe, ce) = #[trigger] emit_fold(p).pairs[k];
            &&& rel32_val(emit_spec(p).subrange(oe - 4, oe)) == ce - oe
            &&& rel32_val(emit_spec(p).subrange(ce - 4, ce)) == oe - ce
            &&& rel32_val(emit_spec(p).subrange(oe - 4, oe)) + rel32_val(
                emit_spec(p).subrange(ce - 4, ce),
            ) == 0
        },
{
    lemma_emit_inv(p);
    let st = emit_fold(p);
    assert forall|k: int| 0 <= k < st.pairs.len() implies {
        let (oe, ce) = #[trigger] st.pairs[k];
        &&& rel32_val(emit_spec(p).subrange(oe - 4, oe)) == ce - oe
        &&& rel32_val(emit_spec(p).subrange(ce - 4, ce)) == oe - ce
        &&& rel32_val(emit_spec(p).subrange(oe - 4, oe)) + rel32_val(
            emit_spec(p).subrange(ce - 4, ce),
        ) == 0
    } by {
        let (oe, ce) = st.pairs[k];
        lemma_append_window(st.code, epilogue_bytes(), oe - 4, oe);
        lemma_append_window(st.code, epilogue_bytes(), ce - 4, ce);
        let fwd = ce - oe;
        lemma_le4_roundtrip(fwd);
        assert((oe - ce) % 0x100000000 == 0x100000000 - fwd);
        lemma_le4_roundtrip(0x100000000 - fwd);
        lemma_le4_len(fwd);
        lemma_le4_len(0x100000000 - fwd);
    }
}

/// The 64-byte ELF64 header of the produced executable: `ET_EXEC` for
/// x86-64, entry point `0x400078`, one program header at offset 64, no
/// section headers.
pub open spec fn elf_header_bytes() -> Seq<u8> {
    seq![
        0x7Fu8, 0x45u8, 0x4Cu8, 0x46u8, 0x02u8, 0x01u8, 0x01u8, 0x00u8,  // magic, 64-bit, LE, v1
        0x00u8, 0x00u8, 0x00u8, 0x00u8, 0x00u8, 0x00u8, 0x00u8, 0x00u8,  // padding
        0x02u8, 0x00u8,  // e_type = ET_EXEC
        0x3Eu8, 0x00u8,  // e_machine = EM_X86_64
        0x01u8, 0x00u8, 0x00u8, 0x00u8,  // e_version
        0x78u8, 0x00u8, 0x40u8, 0x00u8, 0x00u8, 0x00u8, 0x00u8, 0x00u8,  // e_entry = 0x400078
        0x40u8, 0x00u8, 0x00u8, 0x00u8, 0x00u8, 0x00u8, 0x00u8, 0x00u8,  // e_phoff = 64
        0x00u8, 0x00u8, 0x00u8, 0x00u8, 0x00u8, 0x00u8, 0x00u8, 0x00u8,  // e_shoff = 0
        0x00u8, 0x00u8, 0x00u8, 0x00u8,  // e_flags
        0x40u8, 0x00u8,  // e_ehsize = 64
        0x38u8, 0x00u8,  // e_phentsize = 56
        0x01u8, 0x00u8,  // e_phnum = 1
        0x00u8, 0x00u8,  // e_shentsize
        0x00u8, 0x00u8,  // e_shnum
        0x00u8, 0x00u8,  // e_shstrndx
    ]
}

/// The single 56-byte `PT_LOAD` program header: readable and executable,
/// mapped at `0x400000`, covering the whole file.
pub open spec fn program_header_bytes(code_len: int) -> Seq<u8> {
    seq![
        0x01u8, 0x00u8, 0x00u8, 0x00u8,  // p_type = PT_LOAD
        0x05u8, 0x00u8, 0x00u8, 0x00u8,  // p_flags = PF_R | PF_X
        0x00u8, 0x00u8, 0x00u8, 0x00u8, 0x00u8, 0x00u8, 0x00u8, 0x00u8,  // p_offset = 0
        0x00u8, 0x00u8, 0x40u8, 0x00u8, 0x00u8, 0x00u8, 0x00u8, 0x00u8,  // p_vaddr = 0x400000
        0x00u8, 0x00u8, 0x40u8, 0x00u8, 0x00u8, 0x00u8, 0x00u8, 0x00u8,  // p_paddr = 0x400000
    ] + le8(120 + code_len)  // p_filesz
        + le8(120 + code_len)  // p_memsz
        + seq![0x00u8, 0x10u8, 0x00u8, 0x00u8, 0x00u8, 0x00u8, 0x00u8, 0x00u8]  // p_align = 0x1000
}

/// A complete executable image: ELF header, program header, code.
pub open spec fn elf_image_spec(code: Seq<u8>) -> Seq<u8> {
    elf_header_bytes() + program_header_bytes(code.len() as int) + code
}

/// Append the eight little-endian bytes of `v`.
fn push_le8(out: &mut Vec<u8>, v: u64)
    ensures
        final(out)@ == old(out)@ + le8(v as int),
{
    let ghost pre = out@;
    out.push((v % 256) as u8);
    out.push(((v / 256) % 256) as u8);
    out.push(((v / 65536) % 256) as u8);
    out.push(((v / 16777216) % 256) as u8);
    out.push(((v / 0x100000000) % 256) as u8);
    out.push(((v / 0x10000000000) % 256) as u8);
    out.push(((v / 0x1000000000000) % 256) as u8);
    out.push(((v / 0x100000000000000) % 256) as u8);
    proof {
        reveal(le8);
        assert(out@ =~= pre + le8(v as int));
    }
}

/// Wrap machine code in the minimal single-segment ELF64 image.
#[verifier::rlimit(100)]
pub fn wrap_elf(code: &Vec<u8>) -> (r: Vec<u8>)
    requires
        code@.len() <= 0x7FFFFFFF,
    ensures
        r@ == elf_image_spec(code@),
{
    let mut out: Vec<u8> = Vec::new();
    let header: [u8; 64] = [
        0x7F, 0x45, 0x4C, 0x46, 0x02, 0x01, 0x01, 0x00,
        0x00, 0x00, 0x00, 0x00, 0x00, 0x00, 0x00, 0x00,
        0x02, 0x00,
        0x3E, 0x00,
        0x01, 0x00, 0x00, 0x00,
        0x78, 0x00, 0x40, 0x00, 0x00, 0x00, 0x00, 0x00,
        0x40, 0x00, 0x00, 0x00, 0x00, 0x00, 0x00, 0x00,
        0x00, 0x00, 0x00, 0x00, 0x00, 0x00, 0x00, 0x00,
        0x00, 0x00, 0x00, 0x00,
        0x40, 0x00,
        0x38, 0x00,
        0x01, 0x00,
        0x00, 0x00,
        0x00, 0x00,
        0x00, 0x00,
    ];
    out.extend_from_slice(header.as_slice());
    proof {
        assert(out@ =~= elf_header_bytes());
    }
    let ghost after_header = out@;
    let phdr_head: [u8; 32] = [
        0x01, 0x00, 0x00, 0x00,
        0x05, 0x00, 0x00, 0x00,
        0x00, 0x00, 0x00, 0x00, 0x00, 0x00, 0x00, 0x00,
        0x00, 0x00, 0x40, 0x00, 0x00, 0x00, 0x00, 0x00,
        0x00, 0x00, 0x40, 0x00, 0x00, 0x00, 0x00, 0x00,
    ];
    out.extend_from_slice(phdr_head.as_slice());
    let file_size: u64 = 120 + (code.len() as u64);
    push_le8(&mut out, file_size);
    push_le8(&mut out, file_size);
    let align: [u8; 8] = [0x00, 0x10, 0x00, 0x00, 0x00, 0x00, 0x00, 0x00];
    out.extend_from_slice(align.as_slice());
    proof {
        lemma_le8_len(file_size as int);
        assert(out@ =~= elf_header_bytes() + program_header_bytes(code@.len() as int));
    }
    let ghost before_code = out@;
    out.extend_from_slice(code.as_slice());
    proof {
        assert(out@ =~= elf_image_spec(code@));
    }
    out
}

/// The produced image's header fields are mutually consistent: the program
/// header table lies in front of the entry point, and the entry point lies
/// inside the loaded segment:
/// `e_phoff + e_phentsize * e_phnum <= e_entry - p_vaddr <= p_filesz`.
pub proof fn lemma_elf_header_consistent(code: Seq<u8>)
    requires
        code.len() <= 0x7FFFFFFF,
    ensures
        ({
            let img = elf_image_spec(code);
            let e_entry = le8_val(img.subrange(24, 32));
            let e_phoff = le8_val(img.subrange(32, 40));
            let e_phentsize = le2_val(img.subrange(54, 56));
            let e_phnum = le2_val(img.subrange(56, 58));
            let p_vaddr = le8_val(img.subrange(80, 88));
            let p_filesz = le8_val(img.subrange(96, 104));
            &&& e_phoff + e_phentsize * e_phnum <= e_entry - p_vaddr
            &&& e_entry - p_vaddr <= p_filesz
        }),
{
    let img = elf_image_spec(code);
    lemma_le8_len(120 + code.len() as int);
    assert(img.subrange(24, 32) =~= elf_header_bytes().subrange(24, 32));
    assert(img.subrange(32, 40) =~= elf_header_bytes().subrange(32, 40));
    assert(img.subrange(54, 56) =~= elf_header_bytes().subrange(54, 56));
    assert(img.subrange(56, 58) =~= elf_header_bytes().subrange(56, 58));
    assert(img.subrange(80, 88) =~= program_header_bytes(code.len() as int).subrange(16, 24));
    assert(img.subrange(96, 104) =~= le8(120 + code.len() as int));
    assert(le8_val(img.subrange(24, 32)) == 0x400078);
    assert(le8_val(img.subrange(32, 40)) == 64);
    assert(le2_val(img.subrange(54, 56)) == 56);
    assert(le2_val(img.subrange(56, 58)) == 1);
    assert(le8_val(img.subrange(80, 88)) == 0x400000);
    lemma_le8_roundtrip(120 + code.len() as int);
}

} // verus!
