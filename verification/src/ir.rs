//! The intermediate representation: a linear sequence of tagged operations.
//!
//! `IrOp` is the executable type with machine integers; `Op` is its
//! mathematical counterpart with unbounded integers, used by all contracts.

use vstd::prelude::*;

verus! {

/// One operation of the compiler's intermediate representation.
///
/// `MovePointer` moves the tape pointer by `delta`; `AddToCell` adds `value`
/// (mod 256) to the cell at `pointer + offset`; `WriteByte` and `ReadByte`
/// perform one byte of I/O at `pointer + offset`; `JumpIfZero` and
/// `JumpIfNotZero` are the two halves of a bracket pair; `NoOperation` is a
/// sentinel that every back end lowers to nothing.
#[derive(Clone, Copy, PartialEq, Eq, Structural, Debug)]
pub enum IrOp {
    NoOperation,
    MovePointer { delta: i64 },
    AddToCell { value: i64, offset: i64 },
    WriteByte { offset: i64 },
    ReadByte { offset: i64 },
    JumpIfZero { offset: i64 },
    JumpIfNotZero { offset: i64 },
}

/// The mathematical model of an `IrOp`, over unbounded integers.
pub enum Op {
    NoOperation,
    MovePointer { delta: int },
    AddToCell { value: int, offset: int },
    WriteByte { offset: int },
    ReadByte { offset: int },
    JumpIfZero { offset: int },
    JumpIfNotZero { offset: int },
}

impl View for IrOp {
    type V = Op;

    open spec fn view(&self) -> Op {
        match *self {
            IrOp::NoOperation => Op::NoOperation,
            IrOp::MovePointer { delta } => Op::MovePointer { delta: delta as int },
            IrOp::AddToCell { value, offset } => Op::AddToCell {
                value: value as int,
                offset: offset as int,
            },
            IrOp::WriteByte { offset } => Op::WriteByte { offset: offset as int },
            IrOp::ReadByte { offset } => Op::ReadByte { offset: offset as int },
            IrOp::JumpIfZero { offset } => Op::JumpIfZero { offset: offset as int },
            IrOp::JumpIfNotZero { offset } => Op::JumpIfNotZero { offset: offset as int },
        }
    }
}

/// The model sequence of an executable IR sequence.
pub open spec fn ops(s: Seq<IrOp>) -> Seq<Op> {
    s.map_values(|o: IrOp| o@)
}

pub proof fn lemma_ops_push(s: Seq<IrOp>, o: IrOp)
    ensures
        ops(s.push(o)) == ops(s).push(o@),
{
    assert(ops(s.push(o)) =~= ops(s).push(o@));
}

pub proof fn lemma_ops_drop_last(s: Seq<IrOp>)
    requires
        s.len() > 0,
    ensures
        ops(s.drop_last()) == ops(s).drop_last(),
{
    assert(ops(s.drop_last()) =~= ops(s).drop_last());
}

/// Absolute value.
pub open spec fn iabs(x: int) -> int {
    if x < 0 {
        -x
    } else {
        x
    }
}

/// Sum of a per-element integer measure over a sequence.
pub open spec fn sum_of<T>(s: Seq<T>, f: spec_fn(T) -> int) -> int
    decreases s.len(),
{
    if s.len() == 0 {
        0
    } else {
        sum_of(s.drop_last(), f) + f(s.last())
    }
}

pub proof fn lemma_sum_of_take_step<T>(s: Seq<T>, f: spec_fn(T) -> int, i: int)
    requires
        0 <= i < s.len(),
    ensures
        sum_of(s.take(i + 1), f) == sum_of(s.take(i), f) + f(s[i]),
{
    assert(s.take(i + 1).drop_last() =~= s.take(i));
    assert(s.take(i + 1).last() == s[i]);
}

pub proof fn lemma_sum_of_push<T>(s: Seq<T>, f: spec_fn(T) -> int, x: T)
    ensures
        sum_of(s.push(x), f) == sum_of(s, f) + f(x),
{
    assert(s.push(x).drop_last() =~= s);
}

pub proof fn lemma_sum_of_full_take<T>(s: Seq<T>, f: spec_fn(T) -> int)
    ensures
        sum_of(s.take(s.len() as int), f) == sum_of(s, f),
{
    assert(s.take(s.len() as int) =~= s);
}

pub proof fn lemma_sum_of_concat<T>(a: Seq<T>, b: Seq<T>, f: spec_fn(T) -> int)
    ensures
        sum_of(a + b, f) == sum_of(a, f) + sum_of(b, f),
    decreases b.len(),
{
    if b.len() == 0 {
        assert(a + b =~= a);
    } else {
        assert((a + b).drop_last() =~= a + b.drop_last());
        assert((a + b).last() == b.last());
        lemma_sum_of_concat(a, b.drop_last(), f);
    }
}

pub proof fn lemma_sum_of_subrange_step<T>(s: Seq<T>, f: spec_fn(T) -> int, i: int, k: int)
    requires
        0 <= i <= k < s.len(),
    ensures
        sum_of(s.subrange(i, k + 1), f) == sum_of(s.subrange(i, k), f) + f(s[k]),
{
    assert(s.subrange(i, k + 1).drop_last() =~= s.subrange(i, k));
    assert(s.subrange(i, k + 1).last() == s[k]);
}

/// The magnitude of the integer parameters that the optimizer may sum.
pub open spec fn op_weight(o: Op) -> int {
    match o {
        Op::NoOperation => 0,
        Op::MovePointer { delta } => iabs(delta),
        Op::AddToCell { value, offset } => iabs(value) + iabs(offset),
        Op::WriteByte { offset } => iabs(offset),
        Op::ReadByte { offset } => iabs(offset),
        Op::JumpIfZero { offset } => iabs(offset),
        Op::JumpIfNotZero { offset } => iabs(offset),
    }
}

/// Sum of all parameter magnitudes of an IR sequence.  Every integer that the
/// optimizer ever computes is bounded by this quantity, so requiring it to fit
/// in an `i64` rules out overflow for the whole pipeline.
pub open spec fn total_weight(p: Seq<Op>) -> int {
    sum_of(p, |o: Op| op_weight(o))
}

pub proof fn lemma_weight_nonneg(p: Seq<Op>)
    ensures
        0 <= total_weight(p),
    decreases p.len(),
{
    if p.len() > 0 {
        lemma_weight_nonneg(p.drop_last());
    }
}

pub proof fn lemma_weight_take_le(p: Seq<Op>, i: int)
    requires
        0 <= i <= p.len(),
    ensures
        total_weight(p.take(i)) <= total_weight(p),
    decreases p.len() - i,
{
    if i < p.len() {
        lemma_sum_of_take_step(p, |o: Op| op_weight(o), i);
        lemma_weight_take_le(p, i + 1);
        lemma_sum_of_full_take(p, |o: Op| op_weight(o));
    } else {
        assert(p.take(i) =~= p);
    }
}

pub proof fn lemma_weight_elem(p: Seq<Op>, i: int)
    requires
        0 <= i < p.len(),
    ensures
        op_weight(p[i]) <= total_weight(p),
    decreases p.len(),
{
    lemma_weight_nonneg(p.drop_last());
    if i == p.len() - 1 {
        assert(p.last() == p[i]);
    } else {
        lemma_weight_elem(p.drop_last(), i);
        assert(p.drop_last()[i] == p[i]);
    }
}

/// Net pointer movement: the sum of all `MovePointer` deltas.
pub open spec fn delta_of(o: Op) -> int {
    match o {
        Op::MovePointer { delta } => delta,
        _ => 0,
    }
}

pub open spec fn net_delta(p: Seq<Op>) -> int {
    sum_of(p, |o: Op| delta_of(o))
}

/// Bracket contribution of one op: `JumpIfZero` opens, `JumpIfNotZero` closes.
pub open spec fn bracket_of(o: Op) -> int {
    match o {
        Op::JumpIfZero { .. } => 1,
        Op::JumpIfNotZero { .. } => -1,
        _ => 0,
    }
}

/// Bracket balance of an IR sequence: open brackets minus close brackets.
pub open spec fn ir_balance(p: Seq<Op>) -> int {
    sum_of(p, |o: Op| bracket_of(o))
}

/// Every prefix has at least as many open as close brackets, so a
/// left-to-right pass with a bracket stack never underflows.
pub open spec fn ir_prefix_ok(p: Seq<Op>) -> bool {
    forall|i: int| 0 <= i <= p.len() ==> ir_balance(#[trigger] p.take(i)) >= 0
}

/// The shape of IR straight out of the parser: unit moves and adds, all
/// offsets zero, and no `NoOperation` sentinels.
pub open spec fn parser_shaped_op(o: Op) -> bool {
    match o {
        Op::NoOperation => false,
        Op::MovePointer { delta } => delta == 1 || delta == -1,
        Op::AddToCell { value, offset } => (value == 1 || value == -1) && offset == 0,
        Op::WriteByte { offset } => offset == 0,
        Op::ReadByte { offset } => offset == 0,
        Op::JumpIfZero { offset } => offset == 0,
        Op::JumpIfNotZero { offset } => offset == 0,
    }
}

pub open spec fn parser_shaped(p: Seq<Op>) -> bool {
    forall|i: int| 0 <= i < p.len() ==> parser_shaped_op(#[trigger] p[i])
}

} // verus!
