//! The optimizer: pure rewrites over the linear IR.
//!
//! `merge_operations` collapses run-length-encoded increments and pointer
//! moves; `reorder_pointer_moves` folds pointer movement into per-op offsets;
//! `remove_nops` drops operations that do nothing.

use vstd::prelude::*;
use crate::ir::{
    IrOp, Op, bracket_of, delta_of, iabs, ir_balance, ir_prefix_ok, lemma_ops_drop_last,
    lemma_ops_push, lemma_sum_of_concat, lemma_sum_of_push, lemma_sum_of_subrange_step,
    lemma_sum_of_take_step, lemma_weight_elem, lemma_weight_nonneg, lemma_weight_take_le,
    net_delta, op_weight, ops, total_weight,
};

verus! {

/// Whether `merge_operations` fuses `op` into a directly preceding `prev`:
/// two pointer moves always fuse; two cell edits fuse when they touch the
/// same offset.  Fusion never crosses I/O or brackets.
pub open spec fn fusible(prev: Op, op: Op) -> bool {
    match (prev, op) {
        (Op::MovePointer { .. }, Op::MovePointer { .. }) => true,
        (Op::AddToCell { value: _, offset: u }, Op::AddToCell { value: _, offset: v }) => u == v,
        _ => false,
    }
}

/// The single op that replaces a fusible pair: parameters are summed.
pub open spec fn fuse(prev: Op, op: Op) -> Op {
    match (prev, op) {
        (Op::MovePointer { delta: v }, Op::MovePointer { delta: u }) => Op::MovePointer {
            delta: v + u,
        },
        (Op::AddToCell { value: y, offset: u }, Op::AddToCell { value: x, offset: _ }) => {
            Op::AddToCell { value: y + x, offset: u }
        },
        _ => op,
    }
}

/// One step of the merge pass: peek the most recent output and either fuse
/// the incoming op into it or append the op unchanged.
pub open spec fn merge_step(acc: Seq<Op>, op: Op) -> Seq<Op> {
    if acc.len() > 0 && fusible(acc.last(), op) {
        acc.drop_last().push(fuse(acc.last(), op))
    } else {
        acc.push(op)
    }
}

/// The merge pass over a whole IR sequence.
pub open spec fn merge_spec(p: Seq<Op>) -> Seq<Op>
    decreases p.len(),
{
    if p.len() == 0 {
        Seq::empty()
    } else {
        merge_step(merge_spec(p.drop_last()), p.last())
    }
}

proof fn lemma_merge_take_step(p: Seq<Op>, i: int)
    requires
        0 <= i < p.len(),
    ensures
        merge_spec(p.take(i + 1)) == merge_step(merge_spec(p.take(i)), p[i]),
{
    assert(p.take(i + 1).drop_last() =~= p.take(i));
    assert(p.take(i + 1).last() == p[i]);
}

proof fn lemma_merge_step_weight(acc: Seq<Op>, op: Op)
    ensures
        total_weight(merge_step(acc, op)) <= total_weight(acc) + op_weight(op),
{
    if acc.len() > 0 && fusible(acc.last(), op) {
        lemma_sum_of_push(acc.drop_last(), |o: Op| op_weight(o), fuse(acc.last(), op));
    } else {
        lemma_sum_of_push(acc, |o: Op| op_weight(o), op);
    }
}

/// Collapse runs of pointer moves and runs of same-offset cell edits into
/// single ops whose parameters are the sums.  Sums that come to zero are kept;
/// pruning them is `remove_nops`' job.
pub fn merge_operations(bytecode: Vec<IrOp>) -> (r: Vec<IrOp>)
    requires
        total_weight(ops(bytecode@)) <= i64::MAX,
    ensures
        ops(r@) == merge_spec(ops(bytecode@)),
        total_weight(ops(r@)) <= total_weight(ops(bytecode@)),
{
    let ghost p = ops(bytecode@);
    let mut optimized: Vec<IrOp> = Vec::new();
    let mut i: usize = 0;

    while i < bytecode.len()
        invariant
            0 <= i <= bytecode@.len(),
            p == ops(bytecode@),
            total_weight(p) <= i64::MAX,
            ops(optimized@) == merge_spec(p.take(i as int)),
            total_weight(ops(optimized@)) <= total_weight(p.take(i as int)),
        decreases bytecode@.len() - i,
    {
        let op = bytecode[i];
        proof {
            lemma_merge_take_step(p, i as int);
            lemma_sum_of_take_step(p, |o: Op| op_weight(o), i as int);
            lemma_weight_take_le(p, i as int + 1);
            lemma_weight_nonneg(p.take(i as int));
            assert(op@ == p[i as int]);
        }
        let mut fused: Option<IrOp> = None;
        if optimized.len() > 0 {
            let prev = optimized[optimized.len() - 1];
            proof {
                lemma_weight_elem(ops(optimized@), ops(optimized@).len() - 1);
                assert(prev@ == ops(optimized@).last());
            }
            match (prev, op) {
                (IrOp::MovePointer { delta: v }, IrOp::MovePointer { delta: u }) => {
                    fused = Some(IrOp::MovePointer { delta: v + u });
                },
                (IrOp::AddToCell { value: y, offset: u }, IrOp::AddToCell { value: x, offset: v })
                    => {
                    if u == v {
                        fused = Some(IrOp::AddToCell { value: y + x, offset: u });
                    }
                },
                _ => (),
            }
        }
        let ghost pre = optimized@;
        match fused {
            Some(f) => {
                optimized.pop();
                optimized.push(f);
                proof {
                    assert(optimized@ =~= pre.drop_last().push(f));
                    lemma_ops_drop_last(pre);
                    lemma_ops_push(pre.drop_last(), f);
                    assert(f@ == fuse(ops(pre).last(), op@));
                    assert(ops(optimized@) =~= merge_step(ops(pre), op@));
                    lemma_merge_step_weight(ops(pre), op@);
                }
            },
            None => {
                optimized.push(op);
                proof {
                    lemma_ops_push(pre, op);
                    assert(ops(optimized@) =~= merge_step(ops(pre), op@));
                    lemma_merge_step_weight(ops(pre), op@);
                }
            },
        }
        i = i + 1;
    }
    proof {
        assert(p.take(i as int) =~= p);
    }
    optimized
}

/// The running state of the pointer-move hoisting pass: the output so far,
/// the pointer offset accumulated since the last realignment, and the offsets
/// saved at the still-open brackets.
pub struct ReorderState {
    pub out: Seq<Op>,
    pub offset: int,
    pub saved: Seq<int>,
}

/// One step of the hoisting pass.  Pointer moves are swallowed into the
/// running offset; memory-touching ops get the offset baked in; an open
/// bracket saves the offset; a close bracket re-emits a single pointer move
/// that realigns the pointer to the frame saved at the matching open.
pub open spec fn reorder_step(st: ReorderState, op: Op) -> ReorderState {
    match op {
        Op::MovePointer { delta } => ReorderState { offset: st.offset + delta, ..st },
        Op::AddToCell { value, offset } => ReorderState {
            out: st.out.push(Op::AddToCell { value, offset: offset + st.offset }),
            ..st
        },
        Op::WriteByte { offset } => ReorderState {
            out: st.out.push(Op::WriteByte { offset: offset + st.offset }),
            ..st
        },
        Op::ReadByte { offset } => ReorderState {
            out: st.out.push(Op::ReadByte { offset: offset + st.offset }),
            ..st
        },
        Op::JumpIfZero { offset } => ReorderState {
            out: st.out.push(Op::JumpIfZero { offset: offset + st.offset }),
            saved: st.saved.push(st.offset),
            ..st
        },
        Op::JumpIfNotZero { offset } => {
            if st.saved.len() == 0 {
                st
            } else {
                let prev = st.saved.last();
                ReorderState {
                    out: st.out.push(Op::MovePointer { delta: st.offset - prev }).push(
                        Op::JumpIfNotZero { offset: offset + prev },
                    ),
                    offset: prev,
                    saved: st.saved.drop_last(),
                }
            }
        },
        Op::NoOperation => st,
    }
}

pub open spec fn reorder_init() -> ReorderState {
    ReorderState { out: Seq::empty(), offset: 0, saved: Seq::empty() }
}

pub open spec fn reorder_fold(p: Seq<Op>) -> ReorderState
    decreases p.len(),
{
    if p.len() == 0 {
        reorder_init()
    } else {
        reorder_step(reorder_fold(p.drop_last()), p.last())
    }
}

/// The pointer-move hoisting pass over a whole IR sequence.
pub open spec fn reorder_spec(p: Seq<Op>) -> Seq<Op> {
    reorder_fold(p).out
}

proof fn lemma_reorder_take_step(p: Seq<Op>, i: int)
    requires
        0 <= i < p.len(),
    ensures
        reorder_fold(p.take(i + 1)) == reorder_step(reorder_fold(p.take(i)), p[i]),
{
    assert(p.take(i + 1).drop_last() =~= p.take(i));
    assert(p.take(i + 1).last() == p[i]);
}

/// The model sequence of an executable stack of saved offsets.
pub open spec fn ints_of(s: Seq<i64>) -> Seq<int> {
    s.map_values(|x: i64| x as int)
}

/// All quantities the hoisting pass ever computes from its saved offsets stay
/// within the weight bound `w`.
pub open spec fn saved_ok(saved: Seq<int>, off: int, w: int) -> bool {
    &&& iabs(off) <= w
    &&& forall|k: int| 0 <= k < saved.len() ==> iabs(#[trigger] saved[k]) <= w
    &&& forall|k: int| 0 <= k < saved.len() ==> iabs(off - #[trigger] saved[k]) <= w
    &&& forall|j: int, k: int|
        #![trigger saved[j], saved[k]]
        0 <= j < saved.len() && 0 <= k < saved.len() ==> iabs(saved[j] - saved[k]) <= w
}

proof fn lemma_push_weight_bound(pre: Seq<Op>, x: Op, b: int)
    requires
        forall|k: int| 0 <= k < pre.len() ==> op_weight(#[trigger] pre[k]) <= b,
        op_weight(x) <= b,
    ensures
        forall|k: int| 0 <= k < pre.push(x).len() ==> op_weight(#[trigger] pre.push(x)[k]) <= b,
{
    assert forall|k: int| 0 <= k < pre.push(x).len() implies op_weight(#[trigger] pre.push(x)[k])
        <= b by {
        if k < pre.len() {
            assert(pre.push(x)[k] == pre[k]);
        } else {
            assert(pre.push(x)[k] == x);
        }
    }
}

/// Hoist pointer movement out of straight-line code by folding the running
/// pointer offset into every memory-touching op; at each close bracket a
/// single pointer move realigns the pointer to the frame that held at the
/// matching open bracket.  Run exactly once, after `merge_operations`.
pub fn reorder_pointer_moves(bytecode: Vec<IrOp>) -> (r: Vec<IrOp>)
    requires
        total_weight(ops(bytecode@)) <= i64::MAX,
        ir_prefix_ok(ops(bytecode@)),
    ensures
        ops(r@) == reorder_spec(ops(bytecode@)),
        forall|k: int|
            0 <= k < ops(r@).len() ==> op_weight(#[trigger] ops(r@)[k]) <= total_weight(
                ops(bytecode@),
            ),
{
    let ghost p = ops(bytecode@);
    let mut optimized: Vec<IrOp> = Vec::new();
    let mut offset: i64 = 0;
    let mut stack: Vec<i64> = Vec::new();
    let mut i: usize = 0;

    while i < bytecode.len()
        invariant
            0 <= i <= bytecode@.len(),
            p == ops(bytecode@),
            total_weight(p) <= i64::MAX,
            ir_prefix_ok(p),
            ops(optimized@) == reorder_fold(p.take(i as int)).out,
            offset as int == reorder_fold(p.take(i as int)).offset,
            ints_of(stack@) == reorder_fold(p.take(i as int)).saved,
            stack@.len() as int == ir_balance(p.take(i as int)),
            saved_ok(ints_of(stack@), offset as int, total_weight(p.take(i as int))),
            forall|k: int|
                0 <= k < ops(optimized@).len() ==> op_weight(#[trigger] ops(optimized@)[k])
                    <= total_weight(p),
        decreases bytecode@.len() - i,
    {
        let op = bytecode[i];
        let ghost st = reorder_fold(p.take(i as int));
        let ghost wi = total_weight(p.take(i as int));
        let ghost wi1 = total_weight(p.take(i as int + 1));
        proof {
            lemma_reorder_take_step(p, i as int);
            lemma_sum_of_take_step(p, |o: Op| op_weight(o), i as int);
            lemma_sum_of_take_step(p, |o: Op| bracket_of(o), i as int);
            lemma_weight_take_le(p, i as int + 1);
            assert(op@ == p[i as int]);
        }
        match op {
            IrOp::NoOperation => {
                proof {
                    assert(reorder_fold(p.take(i as int + 1)) == st);
                }
            },
            IrOp::MovePointer { delta } => {
                proof {
                    assert(iabs(st.offset + delta) <= wi1);
                }
                offset = offset + delta;
                proof {
                    assert forall|k: int| 0 <= k < ints_of(stack@).len() implies iabs(
                        offset as int - #[trigger] ints_of(stack@)[k],
                    ) <= wi1 by {
                        assert(iabs(st.offset - ints_of(stack@)[k]) <= wi);
                    }
                }
            },
            IrOp::AddToCell { value, offset: u } => {
                let newop = IrOp::AddToCell { value, offset: u + offset };
                let ghost pre = optimized@;
                optimized.push(newop);
                proof {
                    lemma_ops_push(pre, newop);
                    lemma_push_weight_bound(
                        ops(pre),
                        Op::AddToCell { value: value as int, offset: u + offset },
                        total_weight(p),
                    );
                }
            },
            IrOp::WriteByte { offset: u } => {
                let newop = IrOp::WriteByte { offset: u + offset };
                let ghost pre = optimized@;
                optimized.push(newop);
                proof {
                    lemma_ops_push(pre, newop);
                    lemma_push_weight_bound(
                        ops(pre),
                        Op::WriteByte { offset: u + offset },
                        total_weight(p),
                    );
                }
            },
            IrOp::ReadByte { offset: u } => {
                let newop = IrOp::ReadByte { offset: u + offset };
                let ghost pre = optimized@;
                optimized.push(newop);
                proof {
                    lemma_ops_push(pre, newop);
                    lemma_push_weight_bound(
                        ops(pre),
                        Op::ReadByte { offset: u + offset },
                        total_weight(p),
                    );
                }
            },
            IrOp::JumpIfZero { offset: u } => {
                let newop = IrOp::JumpIfZero { offset: u + offset };
                let ghost pre = optimized@;
                let ghost prestack = stack@;
                optimized.push(newop);
                stack.push(offset);
                proof {
                    lemma_ops_push(pre, newop);
                    lemma_push_weight_bound(
                        ops(pre),
                        Op::JumpIfZero { offset: u + offset },
                        total_weight(p),
                    );
                    assert(ints_of(stack@) =~= ints_of(prestack).push(offset as int));
                }
            },
            IrOp::JumpIfNotZero { offset: u } => {
                proof {
                    assert(ir_balance(p.take(i as int + 1)) >= 0);
                    assert(stack@.len() > 0);
                }
                let prev = stack[stack.len() - 1];
                proof {
                    assert(prev as int == ints_of(stack@)[stack@.len() - 1]);
                    assert(prev as int == st.saved.last());
                    assert(iabs(st.offset - prev as int) <= wi);
                }
                stack.pop();
                proof {
                    assert(ints_of(stack@) =~= st.saved.drop_last());
                }
                let moveop = IrOp::MovePointer { delta: offset - prev };
                let ghost pre = optimized@;
                optimized.push(moveop);
                proof {
                    lemma_ops_push(pre, moveop);
                    lemma_push_weight_bound(
                        ops(pre),
                        Op::MovePointer { delta: offset as int - prev as int },
                        total_weight(p),
                    );
                }
                let closeop = IrOp::JumpIfNotZero { offset: u + prev };
                let ghost pre2 = optimized@;
                optimized.push(closeop);
                offset = prev;
                proof {
                    lemma_ops_push(pre2, closeop);
                    lemma_push_weight_bound(
                        ops(pre2),
                        Op::JumpIfNotZero { offset: u as int + prev as int },
                        total_weight(p),
                    );
                    assert forall|k: int| 0 <= k < ints_of(stack@).len() implies iabs(
                        offset as int - #[trigger] ints_of(stack@)[k],
                    ) <= wi1 by {
                        assert(ints_of(stack@)[k] == st.saved[k]);
                        assert(iabs(st.saved[st.saved.len() - 1] - st.saved[k]) <= wi);
                    }
                }
            },
        }
        i = i + 1;
    }
    proof {
        assert(p.take(i as int) =~= p);
    }
    optimized
}

/// Whether an op survives `remove_nops`: everything but a zero pointer move
/// and a zero cell edit.
pub open spec fn keeps(o: Op) -> bool {
    match o {
        Op::MovePointer { delta } => delta != 0,
        Op::AddToCell { value, offset: _ } => value != 0,
        _ => true,
    }
}

/// The dead-op elimination pass: drops `MovePointer { 0 }` and
/// `AddToCell { value: 0, .. }`, preserving everything else in order.
pub open spec fn remove_spec(p: Seq<Op>) -> Seq<Op>
    decreases p.len(),
{
    if p.len() == 0 {
        Seq::empty()
    } else {
        remove_spec(p.drop_last()) + if keeps(p.last()) {
            seq![p.last()]
        } else {
            Seq::empty()
        }
    }
}

proof fn lemma_remove_take_step(p: Seq<Op>, i: int)
    requires
        0 <= i < p.len(),
    ensures
        remove_spec(p.take(i + 1)) == remove_spec(p.take(i)) + if keeps(p[i]) {
            seq![p[i]]
        } else {
            Seq::<Op>::empty()
        },
{
    assert(p.take(i + 1).drop_last() =~= p.take(i));
    assert(p.take(i + 1).last() == p[i]);
}

/// Drop the ops that do nothing at runtime.
pub fn remove_nops(bytecode: Vec<IrOp>) -> (r: Vec<IrOp>)
    ensures
        ops(r@) == remove_spec(ops(bytecode@)),
{
    let ghost p = ops(bytecode@);
    let mut optimized: Vec<IrOp> = Vec::new();
    let mut i: usize = 0;

    while i < bytecode.len()
        invariant
            0 <= i <= bytecode@.len(),
            p == ops(bytecode@),
            ops(optimized@) == remove_spec(p.take(i as int)),
        decreases bytecode@.len() - i,
    {
        let op = bytecode[i];
        proof {
            lemma_remove_take_step(p, i as int);
            assert(op@ == p[i as int]);
        }
        let keep: bool = match op {
            IrOp::MovePointer { delta } => delta != 0,
            IrOp::AddToCell { value, offset: _ } => value != 0,
            _ => true,
        };
        let ghost pre = optimized@;
        if keep {
            optimized.push(op);
            proof {
                lemma_ops_push(pre, op);
                assert(ops(optimized@) =~= remove_spec(p.take(i as int + 1)));
            }
        } else {
            proof {
                assert(ops(optimized@) =~= remove_spec(p.take(i as int + 1)));
            }
        }
        i = i + 1;
    }
    proof {
        assert(p.take(i as int) =~= p);
    }
    optimized
}

/// Dead-op elimination leaves no dead ops behind: its output contains no
/// `AddToCell` with a zero value and no `MovePointer` with a zero delta.
pub proof fn lemma_remove_leaves_no_nops(p: Seq<Op>)
    ensures
        forall|k: int| 0 <= k < remove_spec(p).len() ==> keeps(#[trigger] remove_spec(p)[k]),
    decreases p.len(),
{
    if p.len() > 0 {
        lemma_remove_leaves_no_nops(p.drop_last());
        let a = remove_spec(p.drop_last());
        assert forall|k: int| 0 <= k < remove_spec(p).len() implies keeps(
            #[trigger] remove_spec(p)[k],
        ) by {
            if k < a.len() {
                assert(remove_spec(p)[k] == a[k]);
            } else {
                assert(keeps(p.last()));
                assert(remove_spec(p)[k] == p.last());
            }
        }
    }
}

/// After merging and dead-op elimination the IR contains no
/// `AddToCell { value: 0, .. }` and no `MovePointer { 0 }`, for any input IR.
pub proof fn lemma_merge_then_remove_no_nops(p: Seq<Op>)
    ensures
        forall|k: int|
            0 <= k < remove_spec(merge_spec(p)).len() ==> keeps(
                #[trigger] remove_spec(merge_spec(p))[k],
            ),
{
    lemma_remove_leaves_no_nops(merge_spec(p));
}

/// Dead-op elimination is idempotent.
pub proof fn lemma_remove_idempotent(p: Seq<Op>)
    ensures
        remove_spec(remove_spec(p)) == remove_spec(p),
    decreases p.len(),
{
    if p.len() == 0 {
    } else {
        let a = remove_spec(p.drop_last());
        lemma_remove_idempotent(p.drop_last());
        if keeps(p.last()) {
            assert(remove_spec(p) == a.push(p.last())) by {
                assert(a + seq![p.last()] =~= a.push(p.last()));
            }
            assert(remove_spec(a.push(p.last())) == remove_spec(a) + seq![p.last()]) by {
                assert(a.push(p.last()).drop_last() =~= a);
            }
            assert(remove_spec(remove_spec(p)) =~= remove_spec(p));
        } else {
            assert(remove_spec(p) =~= a);
        }
    }
}

/// No two adjacent ops of a sequence are fusible.
pub open spec fn fully_merged(q: Seq<Op>) -> bool {
    forall|k: int| 0 <= k < q.len() - 1 ==> !fusible(#[trigger] q[k], q[k + 1])
}

/// The merge pass leaves no fusible neighbors: no two adjacent pointer moves
/// and no two adjacent same-offset cell edits survive it.
pub proof fn lemma_merge_fully_merged(p: Seq<Op>)
    ensures
        fully_merged(merge_spec(p)),
    decreases p.len(),
{
    if p.len() > 0 {
        let acc = merge_spec(p.drop_last());
        let x = p.last();
        lemma_merge_fully_merged(p.drop_last());
        if acc.len() > 0 && fusible(acc.last(), x) {
            let q = acc.drop_last().push(fuse(acc.last(), x));
            assert forall|k: int| 0 <= k < q.len() - 1 implies !fusible(#[trigger] q[k], q[k + 1])
            by {
                if k < q.len() - 2 {
                    assert(q[k] == acc[k] && q[k + 1] == acc[k + 1]);
                    assert(!fusible(acc[k], acc[k + 1]));
                } else {
                    assert(q[k] == acc[k] && k == acc.len() - 2);
                    assert(!fusible(acc[k], acc[k + 1]));
                    assert(acc[k + 1] == acc.last());
                }
            }
        } else {
            let q = acc.push(x);
            assert forall|k: int| 0 <= k < q.len() - 1 implies !fusible(#[trigger] q[k], q[k + 1])
            by {
                if k < q.len() - 2 {
                    assert(q[k] == acc[k] && q[k + 1] == acc[k + 1]);
                    assert(!fusible(acc[k], acc[k + 1]));
                } else {
                    if acc.len() > 0 {
                        assert(q[k] == acc.last());
                    }
                }
            }
        }
    }
}

/// On an input with no fusible neighbors the merge pass is the identity.
pub proof fn lemma_merge_of_fully_merged(p: Seq<Op>)
    requires
        fully_merged(p),
    ensures
        merge_spec(p) == p,
    decreases p.len(),
{
    if p.len() > 0 {
        let d = p.drop_last();
        assert(fully_merged(d)) by {
            assert forall|k: int| 0 <= k < d.len() - 1 implies !fusible(#[trigger] d[k], d[k + 1])
            by {
                assert(d[k] == p[k] && d[k + 1] == p[k + 1]);
                assert(!fusible(p[k], p[k + 1]));
            }
        }
        lemma_merge_of_fully_merged(d);
        if d.len() > 0 {
            assert(d.last() == p[p.len() - 2] && p.last() == p[p.len() - 1]);
            assert(!fusible(p[p.len() - 2], p[p.len() - 1]));
            assert(merge_spec(p) =~= p);
        } else {
            assert(merge_spec(p) =~= p);
        }
    }
}

/// The merge pass is idempotent.
pub proof fn lemma_merge_idempotent(p: Seq<Op>)
    ensures
        merge_spec(merge_spec(p)) == merge_spec(p),
{
    lemma_merge_fully_merged(p);
    lemma_merge_of_fully_merged(merge_spec(p));
}

/// The merge pass does not change the bracket structure: the balance of every
/// prefix carries over, so balanced IR stays balanced.
pub proof fn lemma_merge_brackets(p: Seq<Op>)
    ensures
        ir_balance(merge_spec(p)) == ir_balance(p),
        ir_prefix_ok(p) ==> ir_prefix_ok(merge_spec(p)),
    decreases p.len(),
{
    if p.len() == 0 {
    } else {
        let d = p.drop_last();
        let acc = merge_spec(d);
        let x = p.last();
        assert(ir_prefix_ok(p) ==> ir_prefix_ok(d)) by {
            if ir_prefix_ok(p) {
                assert forall|k: int| 0 <= k <= d.len() implies ir_balance(#[trigger] d.take(k))
                    >= 0 by {
                    assert(d.take(k) =~= p.take(k));
                    assert(ir_balance(p.take(k)) >= 0);
                }
            }
        }
        lemma_merge_brackets(d);
        assert(ir_balance(p) == ir_balance(d) + bracket_of(x)) by {
            lemma_sum_of_take_step(p, |o: Op| bracket_of(o), p.len() - 1);
            assert(p.take(p.len() - 1) =~= d);
            assert(p.take(p.len() as int) =~= p);
        }
        if acc.len() > 0 && fusible(acc.last(), x) {
            let q = acc.drop_last().push(fuse(acc.last(), x));
            assert(bracket_of(x) == 0 && bracket_of(acc.last()) == 0 && bracket_of(
                fuse(acc.last(), x),
            ) == 0);
            assert(ir_balance(q) == ir_balance(acc)) by {
                lemma_sum_of_push(acc.drop_last(), |o: Op| bracket_of(o), fuse(acc.last(), x));
            }
            if ir_prefix_ok(p) {
                assert forall|k: int| 0 <= k <= q.len() implies ir_balance(#[trigger] q.take(k))
                    >= 0 by {
                    if k < q.len() {
                        assert(q.take(k) =~= acc.take(k));
                        assert(ir_balance(acc.take(k)) >= 0);
                    } else {
                        assert(q.take(k) =~= q);
                        assert(acc.take(acc.len() as int) =~= acc);
                        assert(ir_balance(acc.take(acc.len() as int)) >= 0);
                    }
                }
            }
        } else {
            let q = acc.push(x);
            assert(ir_balance(q) == ir_balance(acc) + bracket_of(x)) by {
                lemma_sum_of_push(acc, |o: Op| bracket_of(o), x);
            }
            if ir_prefix_ok(p) {
                assert forall|k: int| 0 <= k <= q.len() implies ir_balance(#[trigger] q.take(k))
                    >= 0 by {
                    if k < q.len() {
                        assert(q.take(k) =~= acc.take(k));
                        assert(ir_balance(acc.take(k)) >= 0);
                    } else {
                        assert(q.take(k) =~= q);
                        assert(p.take(p.len() as int) =~= p);
                        assert(ir_balance(p.take(p.len() as int)) >= 0);
                    }
                }
            }
        }
    }
}

/// The merge pass never lengthens the IR.
pub proof fn lemma_merge_len(p: Seq<Op>)
    ensures
        merge_spec(p).len() <= p.len(),
    decreases p.len(),
{
    if p.len() > 0 {
        lemma_merge_len(p.drop_last());
    }
}

/// Dead-op elimination never lengthens the IR.
pub proof fn lemma_remove_len(p: Seq<Op>)
    ensures
        remove_spec(p).len() <= p.len(),
    decreases p.len(),
{
    if p.len() > 0 {
        lemma_remove_len(p.drop_last());
    }
}

/// The hoisting pass at most doubles the IR: each close bracket gains one
/// realigning pointer move.
pub proof fn lemma_reorder_len(p: Seq<Op>)
    ensures
        reorder_spec(p).len() <= 2 * p.len(),
    decreases p.len(),
{
    if p.len() > 0 {
        lemma_reorder_len(p.drop_last());
    }
}

/// Dead-op elimination does not change the bracket structure.
pub proof fn lemma_remove_brackets(p: Seq<Op>)
    ensures
        ir_balance(remove_spec(p)) == ir_balance(p),
        ir_prefix_ok(p) ==> ir_prefix_ok(remove_spec(p)),
    decreases p.len(),
{
    if p.len() == 0 {
    } else {
        let d = p.drop_last();
        let a = remove_spec(d);
        let x = p.last();
        assert(ir_prefix_ok(p) ==> ir_prefix_ok(d)) by {
            if ir_prefix_ok(p) {
                assert forall|k: int| 0 <= k <= d.len() implies ir_balance(#[trigger] d.take(k))
                    >= 0 by {
                    assert(d.take(k) =~= p.take(k));
                    assert(ir_balance(p.take(k)) >= 0);
                }
            }
        }
        lemma_remove_brackets(d);
        assert(ir_balance(p) == ir_balance(d) + bracket_of(x)) by {
            lemma_sum_of_take_step(p, |o: Op| bracket_of(o), p.len() - 1);
            assert(p.take(p.len() - 1) =~= d);
            assert(p.take(p.len() as int) =~= p);
        }
        if keeps(x) {
            let q = a.push(x);
            assert(remove_spec(p) == q) by {
                assert(a + seq![x] =~= q);
            }
            assert(ir_balance(q) == ir_balance(a) + bracket_of(x)) by {
                lemma_sum_of_push(a, |o: Op| bracket_of(o), x);
            }
            if ir_prefix_ok(p) {
                assert forall|k: int| 0 <= k <= q.len() implies ir_balance(#[trigger] q.take(k))
                    >= 0 by {
                    if k < q.len() {
                        assert(q.take(k) =~= a.take(k));
                        assert(ir_balance(a.take(k)) >= 0);
                    } else {
                        assert(q.take(k) =~= q);
                        assert(p.take(p.len() as int) =~= p);
                        assert(ir_balance(p.take(p.len() as int)) >= 0);
                    }
                }
            }
        } else {
            assert(remove_spec(p) =~= a);
            assert(bracket_of(x) == 0);
        }
    }
}

/// Dead-op elimination keeps every surviving parameter within any bound the
/// input obeyed.
pub proof fn lemma_remove_bounded(p: Seq<Op>, b: int)
    requires
        forall|k: int| 0 <= k < p.len() ==> op_weight(#[trigger] p[k]) <= b,
    ensures
        forall|k: int|
            0 <= k < remove_spec(p).len() ==> op_weight(#[trigger] remove_spec(p)[k]) <= b,
    decreases p.len(),
{
    if p.len() > 0 {
        let d = p.drop_last();
        let a = remove_spec(d);
        assert(forall|k: int| 0 <= k < d.len() ==> #[trigger] d[k] == p[k]);
        lemma_remove_bounded(d, b);
        assert forall|k: int| 0 <= k < remove_spec(p).len() implies op_weight(
            #[trigger] remove_spec(p)[k],
        ) <= b by {
            if k < a.len() {
                assert(remove_spec(p)[k] == a[k]);
            } else {
                assert(remove_spec(p)[k] == p.last());
                assert(op_weight(p[p.len() - 1]) <= b);
            }
        }
    }
}

/// The hoisting pass emits one bracket op per bracket op consumed, in order,
/// so its output is bracket-clean and its bracket stack tracks the balance.
pub proof fn lemma_reorder_brackets(p: Seq<Op>)
    requires
        ir_prefix_ok(p),
    ensures
        reorder_fold(p).saved.len() == ir_balance(p),
        ir_balance(reorder_spec(p)) == ir_balance(p),
        ir_prefix_ok(reorder_spec(p)),
    decreases p.len(),
{
    if p.len() == 0 {
        assert(p.take(0) =~= p);
    } else {
        let d = p.drop_last();
        let x = p.last();
        assert(ir_prefix_ok(d)) by {
            assert forall|k: int| 0 <= k <= d.len() implies ir_balance(#[trigger] d.take(k)) >= 0
            by {
                assert(d.take(k) =~= p.take(k));
                assert(ir_balance(p.take(k)) >= 0);
            }
        }
        lemma_reorder_brackets(d);
        let st = reorder_fold(d);
        let st1 = reorder_step(st, x);
        assert(ir_balance(p) == ir_balance(d) + bracket_of(x)) by {
            lemma_sum_of_take_step(p, |o: Op| bracket_of(o), p.len() - 1);
            assert(p.take(p.len() - 1) =~= d);
            assert(p.take(p.len() as int) =~= p);
        }
        match x {
            Op::NoOperation => {
            },
            Op::MovePointer { .. } => {
            },
            Op::JumpIfZero { offset } => {
                let q = st.out.push(Op::JumpIfZero { offset: offset + st.offset });
                assert(ir_balance(q) == ir_balance(st.out) + 1) by {
                    lemma_sum_of_push(st.out, |o: Op| bracket_of(o), q.last());
                }
                assert forall|k: int| 0 <= k <= q.len() implies ir_balance(#[trigger] q.take(k))
                    >= 0 by {
                    if k < q.len() {
                        assert(q.take(k) =~= st.out.take(k));
                        assert(ir_balance(st.out.take(k)) >= 0);
                    } else {
                        assert(q.take(k) =~= q);
                        assert(st.out.take(st.out.len() as int) =~= st.out);
                        assert(ir_balance(st.out.take(st.out.len() as int)) >= 0);
                    }
                }
            },
            Op::JumpIfNotZero { offset } => {
                assert(ir_balance(p) >= 0) by {
                    assert(p.take(p.len() as int) =~= p);
                }
                assert(st.saved.len() >= 1);
                let prev = st.saved.last();
                let m = st.out.push(Op::MovePointer { delta: st.offset - prev });
                let q = m.push(Op::JumpIfNotZero { offset: offset + prev });
                assert(st1.out == q);
                assert(ir_balance(m) == ir_balance(st.out)) by {
                    lemma_sum_of_push(st.out, |o: Op| bracket_of(o), m.last());
                }
                assert(ir_balance(q) == ir_balance(m) - 1) by {
                    lemma_sum_of_push(m, |o: Op| bracket_of(o), q.last());
                }
                assert(ir_balance(st.out) == st.saved.len() >= 1);
                assert forall|k: int| 0 <= k <= q.len() implies ir_balance(#[trigger] q.take(k))
                    >= 0 by {
                    if k < q.len() - 1 {
                        assert(q.take(k) =~= st.out.take(k));
                        assert(ir_balance(st.out.take(k)) >= 0);
                    } else if k == q.len() - 1 {
                        assert(q.take(k) =~= m);
                        assert(st.out.take(st.out.len() as int) =~= st.out);
                        assert(ir_balance(st.out.take(st.out.len() as int)) >= 0);
                    } else {
                        assert(q.take(k) =~= q);
                    }
                }
            },
            _ => {
                // AddToCell, WriteByte, ReadByte: one bracket-neutral op
                let q = st1.out;
                assert(q == st.out.push(q.last()) && bracket_of(q.last()) == 0);
                assert(ir_balance(q) == ir_balance(st.out)) by {
                    lemma_sum_of_push(st.out, |o: Op| bracket_of(o), q.last());
                }
                assert forall|k: int| 0 <= k <= q.len() implies ir_balance(#[trigger] q.take(k))
                    >= 0 by {
                    if k < q.len() {
                        assert(q.take(k) =~= st.out.take(k));
                        assert(ir_balance(st.out.take(k)) >= 0);
                    } else {
                        assert(q.take(k) =~= q);
                        assert(st.out.take(st.out.len() as int) =~= st.out);
                        assert(ir_balance(st.out.take(st.out.len() as int)) >= 0);
                    }
                }
            },
        }
    }
}

/// `p[j]` is the close bracket matching the open bracket `p[i]`: the span
/// between them is bracket-balanced and never dips to the outer level inside.
pub open spec fn ir_matched(p: Seq<Op>, i: int, j: int) -> bool {
    &&& 0 <= i < j < p.len()
    &&& p[i] is JumpIfZero
    &&& p[j] is JumpIfNotZero
    &&& ir_balance(p.subrange(i, j + 1)) == 0
    &&& forall|k: int| i < k <= j ==> ir_balance(#[trigger] p.subrange(i, k)) >= 1
}

/// The net pointer movement of the hoisting pass's output equals the net
/// movement of the input consumed, minus what still sits in the running
/// offset accumulator.
proof fn lemma_reorder_net(p: Seq<Op>)
    ensures
        net_delta(reorder_fold(p).out) == net_delta(p) - reorder_fold(p).offset,
    decreases p.len(),
{
    if p.len() > 0 {
        let d = p.drop_last();
        let x = p.last();
        lemma_reorder_net(d);
        let st = reorder_fold(d);
        assert(net_delta(p) == net_delta(d) + delta_of(x)) by {
            lemma_sum_of_take_step(p, |o: Op| delta_of(o), p.len() - 1);
            assert(p.take(p.len() - 1) =~= d);
            assert(p.take(p.len() as int) =~= p);
        }
        match x {
            Op::NoOperation => {
            },
            Op::MovePointer { .. } => {
            },
            Op::JumpIfNotZero { offset } => {
                if st.saved.len() > 0 {
                    let prev = st.saved.last();
                    let m = st.out.push(Op::MovePointer { delta: st.offset - prev });
                    let q = m.push(Op::JumpIfNotZero { offset: offset + prev });
                    lemma_sum_of_push(st.out, |o: Op| delta_of(o), m.last());
                    lemma_sum_of_push(m, |o: Op| delta_of(o), q.last());
                }
            },
            _ => {
                let q = reorder_step(st, x).out;
                assert(q == st.out.push(q.last()) && delta_of(q.last()) == 0);
                lemma_sum_of_push(st.out, |o: Op| delta_of(o), q.last());
            },
        }
    }
}

/// The hoisting pass only appends output: what it has emitted after a prefix
/// stays in place in the final output.
proof fn lemma_reorder_out_prefix(p: Seq<Op>, m: int)
    requires
        0 <= m <= p.len(),
    ensures
        reorder_fold(p).out.len() >= reorder_fold(p.take(m)).out.len(),
        reorder_fold(p).out.take(reorder_fold(p.take(m)).out.len() as int) == reorder_fold(
            p.take(m),
        ).out,
    decreases p.len(),
{
    if m == p.len() {
        assert(p.take(m) =~= p);
        assert(reorder_fold(p).out.take(reorder_fold(p).out.len() as int) =~= reorder_fold(
            p,
        ).out);
    } else {
        let d = p.drop_last();
        assert(d.take(m) =~= p.take(m));
        lemma_reorder_out_prefix(d, m);
        let st = reorder_fold(d);
        let st1 = reorder_fold(p);
        assert(st1 == reorder_step(st, p.last()));
        assert(st1.out.len() >= st.out.len() && st1.out.take(st.out.len() as int) == st.out) by {
            match p.last() {
                Op::JumpIfNotZero { offset } => {
                    if st.saved.len() > 0 {
                        assert(st1.out.take(st.out.len() as int) =~= st.out);
                    } else {
                        assert(st1.out.take(st.out.len() as int) =~= st.out);
                    }
                },
                _ => {
                    assert(st1.out.take(st.out.len() as int) =~= st.out);
                },
            }
        }
        let lm = reorder_fold(p.take(m)).out.len() as int;
        assert(st1.out.take(lm) =~= st1.out.take(st.out.len() as int).take(lm));
        assert(st.out.take(lm) == reorder_fold(p.take(m)).out);
    }
}

/// Between an open bracket and its matching close, the hoisting pass neither
/// pops the offset saved at the open nor anything below it.
proof fn lemma_reorder_span(p: Seq<Op>, i: int, k: int)
    requires
        0 <= i,
        i + 1 <= k <= p.len(),
        p[i] is JumpIfZero,
        forall|m: int| i < m <= k ==> ir_balance(#[trigger] p.subrange(i, m)) >= 1,
    ensures
        reorder_fold(p.take(k)).saved.len() == reorder_fold(p.take(i + 1)).saved.len()
            + ir_balance(p.subrange(i, k)) - 1,
        reorder_fold(p.take(k)).saved.len() >= reorder_fold(p.take(i + 1)).saved.len(),
        reorder_fold(p.take(k)).saved.take(
            reorder_fold(p.take(i + 1)).saved.len() as int,
        ) == reorder_fold(p.take(i + 1)).saved,
    decreases k,
{
    let si1 = reorder_fold(p.take(i + 1));
    if k == i + 1 {
        assert(p.subrange(i, i + 1) =~= seq![p[i]]);
        assert(seq![p[i]].drop_last() =~= Seq::<Op>::empty());
        assert(ir_balance(Seq::<Op>::empty()) == 0);
        assert(ir_balance(seq![p[i]]) == bracket_of(p[i]));
        assert(ir_balance(p.subrange(i, i + 1)) == bracket_of(p[i]));
        assert(si1.saved.take(si1.saved.len() as int) =~= si1.saved);
    } else {
        lemma_reorder_span(p, i, k - 1);
        let stp = reorder_fold(p.take(k - 1));
        lemma_reorder_take_step(p, k - 1);
        lemma_sum_of_subrange_step(p, |o: Op| bracket_of(o), i, k - 1);
        assert(ir_balance(p.subrange(i, k)) == ir_balance(p.subrange(i, k - 1)) + bracket_of(
            p[k - 1],
        ));
        assert(ir_balance(p.subrange(i, k - 1)) >= 1);
        assert(ir_balance(p.subrange(i, k)) >= 1);
        let stk = reorder_fold(p.take(k));
        match p[k - 1] {
            Op::JumpIfZero { .. } => {
                assert(stk.saved == stp.saved.push(stp.offset));
                assert(stk.saved.take(si1.saved.len() as int) =~= stp.saved.take(
                    si1.saved.len() as int,
                ));
            },
            Op::JumpIfNotZero { .. } => {
                assert(ir_balance(p.subrange(i, k - 1)) >= 2);
                assert(stp.saved.len() >= si1.saved.len() + 1);
                assert(stk.saved == stp.saved.drop_last());
                assert(stk.saved.take(si1.saved.len() as int) =~= stp.saved.take(
                    si1.saved.len() as int,
                ));
            },
            _ => {
                assert(stk.saved == stp.saved);
            },
        }
    }
}

/// Across any matched bracket pair, the pointer moves the hoisting pass
/// emits between the two jumps, including the synthetic realigning move, sum
/// to exactly the net pointer movement of the loop body they replace.
pub proof fn lemma_reorder_pair_net(p: Seq<Op>, i: int, j: int)
    requires
        ir_prefix_ok(p),
        ir_matched(p, i, j),
    ensures
        ({
            let q = reorder_spec(p);
            let a = reorder_fold(p.take(i)).out.len() as int;
            let c = reorder_fold(p.take(j + 1)).out.len() - 1;
            net_delta(q.take(c)) - net_delta(q.take(a)) == net_delta(p.subrange(i + 1, j))
        }),
{
    let q = reorder_spec(p);
    let sti = reorder_fold(p.take(i));
    let sti1 = reorder_fold(p.take(i + 1));
    let stj = reorder_fold(p.take(j));
    let stj1 = reorder_fold(p.take(j + 1));
    let a = sti.out.len() as int;
    let c = stj1.out.len() - 1;
    lemma_reorder_take_step(p, i);
    assert(sti1.saved == sti.saved.push(sti.offset));
    assert(sti1.saved.last() == sti.offset);
    // the saved offset of this open bracket is still on top of the stack at j
    lemma_reorder_span(p, i, j);
    assert(ir_balance(p.subrange(i, j)) == 1) by {
        lemma_sum_of_subrange_step(p, |o: Op| bracket_of(o), i, j);
    }
    assert(stj.saved.len() == sti1.saved.len());
    assert(stj.saved == sti1.saved) by {
        assert(stj.saved.take(sti1.saved.len() as int) =~= stj.saved);
    }
    assert(stj.saved.last() == sti.offset);
    // the close step emits the realigning move and the close jump
    lemma_reorder_take_step(p, j);
    assert(ir_balance(p.take(j + 1)) >= 0);
    let mv = Op::MovePointer { delta: stj.offset - sti.offset };
    let m = stj.out.push(mv);
    assert(stj1.out == m.push(stj1.out.last()));
    assert(stj1.out.len() == stj.out.len() + 2);
    // net movement bookkeeping on both sides of the pass
    lemma_reorder_net_take(p, i);
    lemma_reorder_net_take(p, j);
    assert(net_delta(p.take(j)) == net_delta(p.take(i)) + delta_of(p[i]) + net_delta(
        p.subrange(i + 1, j),
    )) by {
        assert(p.take(j) =~= p.take(i) + p.subrange(i, j));
        lemma_sum_of_concat(p.take(i), p.subrange(i, j), |o: Op| delta_of(o));
        assert(p.subrange(i, j) =~= seq![p[i]] + p.subrange(i + 1, j));
        lemma_sum_of_concat(seq![p[i]], p.subrange(i + 1, j), |o: Op| delta_of(o));
        assert(seq![p[i]].drop_last() =~= Seq::<Op>::empty());
        assert(net_delta(Seq::<Op>::empty()) == 0);
        assert(net_delta(seq![p[i]]) == delta_of(p[i]));
    }
    assert(delta_of(p[i]) == 0);
    // the output before the close test is everything up to and including the
    // realigning move
    assert(q.take(c) == m) by {
        lemma_reorder_out_prefix(p, j + 1);
        assert(q.take(stj1.out.len() as int) == stj1.out);
        assert(q.take(c) =~= q.take(stj1.out.len() as int).take(c));
        assert(stj1.out.take(c) =~= m);
    }
    assert(q.take(a) == sti.out) by {
        lemma_reorder_out_prefix(p, i);
        assert(q.take(sti.out.len() as int) == sti.out);
    }
    assert(net_delta(m) == net_delta(stj.out) + (stj.offset - sti.offset)) by {
        lemma_sum_of_push(stj.out, |o: Op| delta_of(o), mv);
    }
}

/// The pointer-realignment law of the hoisting pass.  For a loop whose body
/// moves the pointer back to where it started, the emitted code reaches the
/// close bracket's test with the same pointer that its matching open
/// bracket's test saw.
pub proof fn lemma_reorder_realigns(p: Seq<Op>, i: int, j: int)
    requires
        ir_prefix_ok(p),
        ir_matched(p, i, j),
        net_delta(p.subrange(i + 1, j)) == 0,
    ensures
        ({
            let q = reorder_spec(p);
            let a = reorder_fold(p.take(i)).out.len() as int;
            let c = reorder_fold(p.take(j + 1)).out.len() - 1;
            net_delta(q.take(c)) == net_delta(q.take(a))
        }),
{
    lemma_reorder_pair_net(p, i, j);
}

/// `lemma_reorder_net` restated for a prefix.
proof fn lemma_reorder_net_take(p: Seq<Op>, m: int)
    requires
        0 <= m <= p.len(),
    ensures
        net_delta(reorder_fold(p.take(m)).out) == net_delta(p.take(m)) - reorder_fold(
            p.take(m),
        ).offset,
{
    lemma_reorder_net(p.take(m));
}

/// The abstract machine a straight-line op acts on: the tape pointer and the
/// tape, cells held mod 256 and zero where never written.
pub struct MachState {
    pub ptr: int,
    pub tape: Map<int, int>,
}

/// The value of a cell: zero until written.
pub open spec fn cell(tape: Map<int, int>, k: int) -> int {
    if tape.dom().contains(k) {
        tape[k]
    } else {
        0
    }
}

/// The effect of one pointer move or cell edit on the machine.  I/O and
/// brackets are not state transformers of this machine and are not modeled
/// here.
pub open spec fn apply_op(s: MachState, o: Op) -> MachState {
    match o {
        Op::MovePointer { delta } => MachState { ptr: s.ptr + delta, tape: s.tape },
        Op::AddToCell { value, offset } => MachState {
            ptr: s.ptr,
            tape: s.tape.insert(
                s.ptr + offset,
                (cell(s.tape, s.ptr + offset) + value) % 256,
            ),
        },
        _ => s,
    }
}

/// Fusing two adjacent pointer moves is sound: the fused op drives the
/// machine to the same state as the pair it replaces.
pub proof fn lemma_fuse_moves_sound(s: MachState, u: int, v: int)
    ensures
        apply_op(
            apply_op(s, Op::MovePointer { delta: u }),
            Op::MovePointer { delta: v },
        ) == apply_op(s, Op::MovePointer { delta: u + v }),
{
}

/// Fusing two adjacent same-offset cell edits is sound: adding `x` then `y`
/// to a cell mod 256 equals adding `x + y` once.
pub proof fn lemma_fuse_adds_sound(s: MachState, x: int, y: int, o: int)
    ensures
        apply_op(
            apply_op(s, Op::AddToCell { value: x, offset: o }),
            Op::AddToCell { value: y, offset: o },
        ) == apply_op(s, Op::AddToCell { value: x + y, offset: o }),
{
    let k = s.ptr + o;
    let c = cell(s.tape, k);
    assert(((c + x) % 256 + y) % 256 == (c + x + y) % 256) by {
        vstd::arithmetic::div_mod::lemma_add_mod_noop(c + x, y, 256);
        vstd::arithmetic::div_mod::lemma_mod_twice(c + x, 256);
    }
    let s1 = apply_op(apply_op(s, Op::AddToCell { value: x, offset: o }), Op::AddToCell {
        value: y,
        offset: o,
    });
    let s2 = apply_op(s, Op::AddToCell { value: x + y, offset: o });
    assert(s1.tape =~= s2.tape);
}

/// The machine together with its I/O channels: bytes still to be read and
/// bytes written so far.
pub struct ExecState {
    pub mach: MachState,
    pub input: Seq<int>,
    pub output: Seq<int>,
}

/// The observable effect of one op of straight-line code: pointer moves and
/// cell edits change the machine, a write appends the addressed cell to the
/// output, a read takes the next input byte (or zero at end of input) into
/// the addressed cell.  Brackets are control flow, not straight-line ops, and
/// are outside this relation.
pub open spec fn exec_op(s: ExecState, o: Op) -> ExecState {
    match o {
        Op::MovePointer { .. } => ExecState { mach: apply_op(s.mach, o), ..s },
        Op::AddToCell { .. } => ExecState { mach: apply_op(s.mach, o), ..s },
        Op::WriteByte { offset } => ExecState {
            output: s.output.push(cell(s.mach.tape, s.mach.ptr + offset)),
            ..s
        },
        Op::ReadByte { offset } => ExecState {
            mach: MachState {
                ptr: s.mach.ptr,
                tape: s.mach.tape.insert(
                    s.mach.ptr + offset,
                    if s.input.len() == 0 {
                        0
                    } else {
                        s.input.first()
                    },
                ),
            },
            input: if s.input.len() == 0 {
                s.input
            } else {
                s.input.drop_first()
            },
            ..s
        },
        _ => s,
    }
}

/// Run straight-line code from a state.
pub open spec fn exec_ops(s: ExecState, p: Seq<Op>) -> ExecState
    decreases p.len(),
{
    if p.len() == 0 {
        s
    } else {
        exec_op(exec_ops(s, p.drop_last()), p.last())
    }
}

/// IR without brackets: a straight-line segment.
pub open spec fn straight_line(p: Seq<Op>) -> bool {
    forall|k: int|
        0 <= k < p.len() ==> !(#[trigger] p[k] is JumpIfZero) && !(p[k] is JumpIfNotZero)
}

proof fn lemma_exec_ops_push(s: ExecState, p: Seq<Op>, x: Op)
    ensures
        exec_ops(s, p.push(x)) == exec_op(exec_ops(s, p), x),
{
    assert(p.push(x).drop_last() =~= p);
}

/// Fusing a pair is sound for the full observable state: neither rule
/// touches the I/O channels, and both agree with the machine-level laws.
proof fn lemma_fuse_sound(s: ExecState, prev: Op, x: Op)
    requires
        fusible(prev, x),
    ensures
        exec_op(exec_op(s, prev), x) == exec_op(s, fuse(prev, x)),
{
    match (prev, x) {
        (Op::MovePointer { delta: u }, Op::MovePointer { delta: v }) => {
            lemma_fuse_moves_sound(s.mach, u, v);
        },
        (Op::AddToCell { value: a, offset: u }, Op::AddToCell { value: b, offset: _ }) => {
            lemma_fuse_adds_sound(s.mach, a, b, u);
        },
        _ => {
        },
    }
}

/// The merge pass preserves observable behavior on straight-line code: run
/// from any state, the merged segment reaches the same machine state, reads
/// the same input and writes the same output as the original segment.
pub proof fn lemma_merge_preserves_behavior(s: ExecState, p: Seq<Op>)
    requires
        straight_line(p),
    ensures
        exec_ops(s, merge_spec(p)) == exec_ops(s, p),
    decreases p.len(),
{
    if p.len() > 0 {
        let d = p.drop_last();
        let x = p.last();
        assert(straight_line(d)) by {
            assert(forall|k: int| 0 <= k < d.len() ==> #[trigger] d[k] == p[k]);
        }
        lemma_merge_preserves_behavior(s, d);
        let acc = merge_spec(d);
        if acc.len() > 0 && fusible(acc.last(), x) {
            let pre = acc.drop_last();
            assert(acc == pre.push(acc.last())) by {
                assert(pre.push(acc.last()) =~= acc);
            }
            lemma_exec_ops_push(s, pre, acc.last());
            lemma_exec_ops_push(s, pre, fuse(acc.last(), x));
            lemma_fuse_sound(exec_ops(s, pre), acc.last(), x);
        } else {
            lemma_exec_ops_push(s, acc, x);
        }
    }
}

/// The position of the close bracket matching an open at `i - 1`, found by a
/// left-to-right scan at nesting `depth`; the sequence's length when there is
/// none.
pub open spec fn scan_close(p: Seq<Op>, i: int, depth: int) -> int
    decreases p.len() - i,
{
    if i < 0 || i >= p.len() {
        p.len() as int
    } else {
        match p[i] {
            Op::JumpIfZero { .. } => scan_close(p, i + 1, depth + 1),
            Op::JumpIfNotZero { .. } => {
                if depth == 0 {
                    i
                } else {
                    scan_close(p, i + 1, depth - 1)
                }
            },
            _ => scan_close(p, i + 1, depth),
        }
    }
}

/// Scanning across a region whose prefixes never take the depth negative
/// lands past the region, at the depth adjusted by the region's balance.
proof fn lemma_scan_region(p: Seq<Op>, i: int, ln: int, d: int)
    requires
        0 <= i,
        0 <= ln,
        i + ln <= p.len(),
        0 <= d,
        forall|m: int| 0 <= m <= ln ==> d + ir_balance(#[trigger] p.subrange(i, i + m)) >= 0,
    ensures
        d + ir_balance(p.subrange(i, i + ln)) >= 0,
        scan_close(p, i, d) == scan_close(p, i + ln, d + ir_balance(p.subrange(i, i + ln))),
    decreases ln,
{
    if ln == 0 {
        assert(p.subrange(i, i) =~= Seq::<Op>::empty());
    } else {
        let x = p[i];
        assert(p.subrange(i, i + 1) =~= seq![x]);
        assert(seq![x].drop_last() =~= Seq::<Op>::empty());
        assert(ir_balance(Seq::<Op>::empty()) == 0);
        assert(ir_balance(seq![x]) == bracket_of(x));
        assert(ir_balance(p.subrange(i, i + 1)) == bracket_of(x));
        let d1 = d + bracket_of(x);
        assert(d + ir_balance(p.subrange(i, i + 1)) >= 0);
        assert forall|m: int| 0 <= m <= ln - 1 implies d1 + ir_balance(
            #[trigger] p.subrange(i + 1, i + 1 + m),
        ) >= 0 by {
            assert(p.subrange(i, i + 1 + m) =~= p.subrange(i, i + 1) + p.subrange(i + 1, i + 1
                + m));
            lemma_sum_of_concat(
                p.subrange(i, i + 1),
                p.subrange(i + 1, i + 1 + m),
                |o: Op| bracket_of(o),
            );
            let mm = m + 1;
            assert(d + ir_balance(p.subrange(i, i + mm)) >= 0);
            assert(p.subrange(i, i + mm) =~= p.subrange(i, i + 1 + m));
        }
        lemma_scan_region(p, i + 1, ln - 1, d1);
        assert(p.subrange(i, i + ln) =~= p.subrange(i, i + 1) + p.subrange(i + 1, i + ln));
        lemma_sum_of_concat(p.subrange(i, i + 1), p.subrange(i + 1, i + ln), |o: Op| bracket_of(o));
        assert(scan_close(p, i, d) == scan_close(p, i + 1, d1)) by {
            if x is JumpIfNotZero {
                assert(d >= 1);
            }
        }
    }
}

/// The first position at or after `m` where the whole prefix through it is
/// bracket-balanced; the sequence's length when there is none.
spec fn close_pos(q: Seq<Op>, m: int) -> int
    decreases q.len() - m,
{
    if m < 0 || m >= q.len() {
        q.len() as int
    } else if ir_balance(q.take(m + 1)) == 0 {
        m
    } else {
        close_pos(q, m + 1)
    }
}

proof fn lemma_close_pos_bound(q: Seq<Op>, m: int, k: int)
    requires
        0 <= m <= k < q.len(),
        ir_balance(q.take(k + 1)) == 0,
    ensures
        m <= close_pos(q, m) <= k,
        ir_balance(q.take(close_pos(q, m) + 1)) == 0,
        forall|r: int| m <= r < close_pos(q, m) ==> ir_balance(#[trigger] q.take(r + 1)) != 0,
    decreases k - m,
{
    if ir_balance(q.take(m + 1)) == 0 {
    } else {
        lemma_close_pos_bound(q, m + 1, k);
    }
}

/// A bracket-balanced sequence that opens with `[` decomposes as
/// `[ body ] rest` with `body` and `rest` balanced, and the scanner finds
/// exactly that close bracket.
#[verifier::rlimit(100)]
#[verifier::spinoff_prover]
proof fn lemma_loop_shape(q: Seq<Op>)
    requires
        ir_prefix_ok(q),
        ir_balance(q) == 0,
        q.len() >= 1,
        q[0] is JumpIfZero,
    ensures
        ({
            let j = scan_close(q, 1, 0);
            &&& 1 <= j < q.len()
            &&& q[j] is JumpIfNotZero
            &&& ir_prefix_ok(q.subrange(1, j))
            &&& ir_balance(q.subrange(1, j)) == 0
            &&& ir_prefix_ok(q.subrange(j + 1, q.len() as int))
            &&& ir_balance(q.subrange(j + 1, q.len() as int)) == 0
        }),
{
    assert(q.take(1) =~= seq![q[0]]);
    assert(seq![q[0]].drop_last() =~= Seq::<Op>::empty());
    assert(ir_balance(Seq::<Op>::empty()) == 0);
    assert(ir_balance(seq![q[0]]) == 1);
    assert(ir_balance(q.take(1)) == 1);
    assert(q.take(q.len() as int) =~= q);
    assert(q.len() >= 2);
    let j = close_pos(q, 1);
    lemma_close_pos_bound(q, 1, q.len() - 1);
    // every strict prefix through the body keeps at least one bracket open
    assert forall|m: int| 1 <= m <= j implies ir_balance(#[trigger] q.take(m)) >= 1 by {
        if m == 1 {
        } else {
            assert(ir_balance(q.take((m - 1) + 1)) != 0);
            assert(ir_balance(q.take(m)) >= 0);
        }
    }
    // the op at j closes a bracket
    assert(q[j] is JumpIfNotZero) by {
        lemma_sum_of_take_step(q, |o: Op| bracket_of(o), j);
        assert(ir_balance(q.take(j)) >= 1);
        assert(ir_balance(q.take(j + 1)) == 0);
        assert(bracket_of(q[j]) <= -1);
    }
    let b = q.subrange(1, j);
    assert forall|m: int| 0 <= m <= b.len() implies ir_balance(#[trigger] b.take(m)) >= 0 by {
        assert(q.take(1 + m) =~= q.take(1) + b.take(m));
        lemma_sum_of_concat(q.take(1), b.take(m), |o: Op| bracket_of(o));
        assert(ir_balance(q.take(1 + m)) >= 1);
    }
    assert(ir_balance(b) == 0) by {
        assert(b.take(b.len() as int) =~= b);
        assert(q.take(j) =~= q.take(1) + b);
        lemma_sum_of_concat(q.take(1), b, |o: Op| bracket_of(o));
        lemma_sum_of_take_step(q, |o: Op| bracket_of(o), j);
    }
    let c = q.subrange(j + 1, q.len() as int);
    assert forall|m: int| 0 <= m <= c.len() implies ir_balance(#[trigger] c.take(m)) >= 0 by {
        assert(q.take(j + 1 + m) =~= q.take(j + 1) + c.take(m));
        lemma_sum_of_concat(q.take(j + 1), c.take(m), |o: Op| bracket_of(o));
        assert(ir_balance(q.take(j + 1 + m)) >= 0);
    }
    assert(ir_balance(c) == 0) by {
        assert(c.take(c.len() as int) =~= c);
        assert(q =~= q.take(j + 1) + c);
        lemma_sum_of_concat(q.take(j + 1), c, |o: Op| bracket_of(o));
    }
    // the scanner walks the balanced body and stops on the close
    assert(scan_close(q, 1, 0) == j) by {
        assert forall|m: int| 0 <= m <= j - 1 implies 0 + ir_balance(
            #[trigger] q.subrange(1, 1 + m),
        ) >= 0 by {
            assert(q.subrange(1, 1 + m) =~= b.take(m));
        }
        lemma_scan_region(q, 1, j - 1, 0);
        assert(q.subrange(1, j) =~= b);
    }
}

/// Run a bracket-balanced program from a state, with `fuel` bounding the
/// number of loop iterations taken: `None` when the fuel runs out (or the
/// program is not bracket-clean).  An open bracket tests its cell: zero skips
/// past the matching close; nonzero runs the body once and then re-enters
/// the loop.
pub open spec fn exec_bal(p: Seq<Op>, s: ExecState, fuel: nat) -> Option<ExecState>
    decreases fuel, p.len(),
{
    if p.len() == 0 {
        Some(s)
    } else {
        match p[0] {
            Op::JumpIfZero { offset } => {
                let j = scan_close(p, 1, 0);
                if 1 <= j && j < p.len() && p[j] is JumpIfNotZero {
                    if cell(s.mach.tape, s.mach.ptr + offset) == 0 {
                        exec_bal(p.subrange(j + 1, p.len() as int), s, fuel)
                    } else if fuel == 0 {
                        None
                    } else {
                        match exec_bal(p.subrange(1, j), s, fuel) {
                            Some(s1) => exec_bal(p, s1, (fuel - 1) as nat),
                            None => None,
                        }
                    }
                } else {
                    None
                }
            },
            Op::JumpIfNotZero { .. } => None,
            _ => exec_bal(p.drop_first(), exec_op(s, p[0]), fuel),
        }
    }
}

proof fn lemma_exec_ops_first(s: ExecState, p: Seq<Op>)
    requires
        p.len() >= 1,
    ensures
        exec_ops(s, p) == exec_ops(exec_op(s, p.first()), p.drop_first()),
    decreases p.len(),
{
    if p.len() == 1 {
        assert(p.drop_last() =~= Seq::<Op>::empty());
        assert(p.drop_first() =~= Seq::<Op>::empty());
        assert(p.last() == p.first());
        assert(exec_ops(s, Seq::<Op>::empty()) == s);
        assert(exec_ops(s, p) == exec_op(s, p.last()));
        assert(exec_ops(exec_op(s, p.first()), p.drop_first()) == exec_op(s, p.first()));
    } else {
        let d = p.drop_last();
        let s1 = exec_op(s, p.first());
        lemma_exec_ops_first(s, d);
        assert(d.first() == p.first());
        assert(exec_ops(s, p) == exec_op(exec_ops(s, d), p.last()));
        assert(exec_ops(s, d) == exec_ops(s1, d.drop_first()));
        lemma_exec_ops_push(s1, d.drop_first(), p.last());
        assert(exec_ops(s1, d.drop_first().push(p.last())) == exec_op(
            exec_ops(s1, d.drop_first()),
            p.last(),
        ));
        assert(d.drop_first().push(p.last()) =~= p.drop_first());
        assert(exec_ops(s1, p.drop_first()) == exec_ops(s1, d.drop_first().push(p.last())));
    }
}

/// On straight-line code the structured run is the plain fold, whatever the
/// fuel.
proof fn lemma_exec_bal_straight(p: Seq<Op>, s: ExecState, fuel: nat)
    requires
        straight_line(p),
    ensures
        exec_bal(p, s, fuel) == Some(exec_ops(s, p)),
    decreases p.len(),
{
    if p.len() > 0 {
        assert(!(p[0] is JumpIfZero) && !(p[0] is JumpIfNotZero));
        assert(straight_line(p.drop_first())) by {
            assert(forall|k: int|
                0 <= k < p.drop_first().len() ==> #[trigger] p.drop_first()[k] == p[k + 1]);
        }
        lemma_exec_bal_straight(p.drop_first(), exec_op(s, p[0]), fuel);
        lemma_exec_ops_first(s, p);
    }
}

/// A straight-line prefix runs first, as a fold, whatever follows it.
proof fn lemma_exec_bal_prefix(a: Seq<Op>, z: Seq<Op>, s: ExecState, fuel: nat)
    requires
        straight_line(a),
    ensures
        exec_bal(a + z, s, fuel) == exec_bal(z, exec_ops(s, a), fuel),
    decreases a.len(),
{
    if a.len() == 0 {
        assert(a + z =~= z);
    } else {
        let x = a.first();
        assert((a + z)[0] == x);
        assert(!(x is JumpIfZero) && !(x is JumpIfNotZero)) by {
            assert(a[0] == x);
        }
        assert((a + z).drop_first() =~= a.drop_first() + z);
        assert(straight_line(a.drop_first())) by {
            assert(forall|k: int|
                0 <= k < a.drop_first().len() ==> #[trigger] a.drop_first()[k] == a[k + 1]);
        }
        lemma_exec_bal_prefix(a.drop_first(), z, exec_op(s, x), fuel);
        lemma_exec_ops_first(s, a);
    }
}

/// Merging straight-line code yields straight-line code.
proof fn lemma_merge_straight(p: Seq<Op>)
    requires
        straight_line(p),
    ensures
        straight_line(merge_spec(p)),
    decreases p.len(),
{
    if p.len() > 0 {
        let d = p.drop_last();
        assert(straight_line(d)) by {
            assert(forall|k: int| 0 <= k < d.len() ==> #[trigger] d[k] == p[k]);
        }
        lemma_merge_straight(d);
        let acc = merge_spec(d);
        let x = p.last();
        let q = merge_step(acc, x);
        assert forall|k: int| 0 <= k < q.len() implies !(#[trigger] q[k] is JumpIfZero) && !(
        q[k] is JumpIfNotZero) by {
            if acc.len() > 0 && fusible(acc.last(), x) {
                if k < q.len() - 1 {
                    assert(q[k] == acc[k]);
                } else {
                    assert(q[k] == fuse(acc.last(), x));
                }
            } else {
                if k < q.len() - 1 {
                    assert(q[k] == acc[k]);
                } else {
                    assert(q[k] == x);
                }
            }
        }
    }
}

/// An op the merge pass can never fuse a successor into.
pub open spec fn barrier(o: Op) -> bool {
    !(o is MovePointer) && !(o is AddToCell)
}

proof fn lemma_merge_last_barrier(x: Seq<Op>)
    requires
        x.len() >= 1,
        barrier(x.last()),
    ensures
        merge_spec(x).len() >= 1,
        merge_spec(x).last() == x.last(),
{
}

/// Merging distributes over a split at a barrier: nothing fuses across it.
proof fn lemma_merge_concat_barrier(x: Seq<Op>, y: Seq<Op>)
    requires
        x.len() >= 1,
        barrier(x.last()),
    ensures
        merge_spec(x + y) == merge_spec(x) + merge_spec(y),
    decreases y.len(),
{
    if y.len() == 0 {
        assert(x + y =~= x);
        assert(merge_spec(x) + merge_spec(y) =~= merge_spec(x));
    } else {
        let yd = y.drop_last();
        lemma_merge_concat_barrier(x, yd);
        assert((x + y).drop_last() =~= x + yd);
        let mx = merge_spec(x);
        let my = merge_spec(yd);
        let cat = mx + my;
        lemma_merge_last_barrier(x);
        if my.len() > 0 {
            assert(cat.len() > 0 && cat.last() == my.last());
            if fusible(my.last(), y.last()) {
                assert(merge_step(cat, y.last()) =~= mx + merge_step(my, y.last()));
            } else {
                assert(merge_step(cat, y.last()) =~= mx + merge_step(my, y.last()));
            }
        } else {
            assert(cat =~= mx);
            assert(cat.last() == x.last());
            assert(!fusible(cat.last(), y.last()));
            assert(merge_step(cat, y.last()) =~= mx + merge_step(my, y.last()));
        }
    }
}

/// The first bracket at or after `m`; the length when there is none.
spec fn first_bracket(p: Seq<Op>, m: int) -> int
    decreases p.len() - m,
{
    if m < 0 || m >= p.len() {
        p.len() as int
    } else if p[m] is JumpIfZero || p[m] is JumpIfNotZero {
        m
    } else {
        first_bracket(p, m + 1)
    }
}

proof fn lemma_first_bracket(p: Seq<Op>, m: int)
    requires
        0 <= m <= p.len(),
    ensures
        m <= first_bracket(p, m) <= p.len(),
        forall|k: int|
            m <= k < first_bracket(p, m) ==> !(#[trigger] p[k] is JumpIfZero) && !(
            p[k] is JumpIfNotZero),
        first_bracket(p, m) < p.len() ==> (p[first_bracket(p, m)] is JumpIfZero
            || p[first_bracket(p, m)] is JumpIfNotZero),
        ir_balance(p.take(first_bracket(p, m))) == ir_balance(p.take(m)),
    decreases p.len() - m,
{
    if m < p.len() && !(p[m] is JumpIfZero) && !(p[m] is JumpIfNotZero) {
        lemma_first_bracket(p, m + 1);
        lemma_sum_of_take_step(p, |o: Op| bracket_of(o), m);
    }
}

/// The merge pass preserves observable behavior on whole programs: run from
/// any state with any loop-iteration budget, the merged program reads the
/// same input, writes the same output and reaches the same machine state as
/// the original, diverging exactly when the original does.
#[verifier::rlimit(100)]
#[verifier::spinoff_prover]
pub proof fn lemma_merge_preserves_program(p: Seq<Op>, s: ExecState, fuel: nat)
    requires
        ir_prefix_ok(p),
        ir_balance(p) == 0,
    ensures
        exec_bal(merge_spec(p), s, fuel) == exec_bal(p, s, fuel),
    decreases fuel, p.len(),
{
    let n = first_bracket(p, 0);
    lemma_first_bracket(p, 0);
    assert(p.take(0) =~= Seq::<Op>::empty());
    if n == p.len() {
        // no brackets at all: both sides are plain folds
        assert(straight_line(p));
        lemma_merge_straight(p);
        lemma_exec_bal_straight(p, s, fuel);
        lemma_exec_bal_straight(merge_spec(p), s, fuel);
        lemma_merge_preserves_behavior(s, p);
    } else if n > 0 {
        // peel the straight-line prefix off both programs
        assert(p[n] is JumpIfZero) by {
            if p[n] is JumpIfNotZero {
                lemma_sum_of_take_step(p, |o: Op| bracket_of(o), n);
                assert(ir_balance(p.take(n + 1)) >= 0);
            }
        }
        let a = p.take(n);
        let q = p.subrange(n, p.len() as int);
        assert(straight_line(a)) by {
            assert(forall|k: int| 0 <= k < a.len() ==> #[trigger] a[k] == p[k]);
        }
        assert(ir_balance(a) == 0) by {
            assert(a.take(n) =~= a);
            assert(a.take(n) == p.take(n));
        }
        assert(ir_prefix_ok(q) && ir_balance(q) == 0) by {
            assert forall|m: int| 0 <= m <= q.len() implies ir_balance(#[trigger] q.take(m)) >= 0
            by {
                assert(p.take(n + m) =~= a + q.take(m));
                lemma_sum_of_concat(a, q.take(m), |o: Op| bracket_of(o));
                assert(ir_balance(p.take(n + m)) >= 0);
            }
            assert(q.take(q.len() as int) =~= q);
            assert(p.take(p.len() as int) =~= p);
            assert(p =~= a + q);
            lemma_sum_of_concat(a, q, |o: Op| bracket_of(o));
        }
        // the merged program splits the same way
        assert(q[0] == p[n]);
        let x = a.push(q[0]);
        let qd = q.drop_first();
        assert(merge_spec(p) == merge_spec(a) + merge_spec(q)) by {
            assert(p =~= x + qd);
            lemma_merge_concat_barrier(x, qd);
            assert(merge_spec(x) == merge_spec(a).push(q[0])) by {
                assert(x.drop_last() =~= a);
                assert(x.last() == q[0]);
            }
            assert(q =~= seq![q[0]] + qd);
            lemma_merge_concat_barrier(seq![q[0]], qd);
            assert(merge_spec(seq![q[0]]) == seq![q[0]]) by {
                assert(seq![q[0]].drop_last() =~= Seq::<Op>::empty());
                assert(merge_spec(Seq::<Op>::empty()) == Seq::<Op>::empty());
                assert(Seq::<Op>::empty().push(q[0]) =~= seq![q[0]]);
            }
            assert(merge_spec(a).push(q[0]) + merge_spec(qd) =~= merge_spec(a) + (seq![q[0]]
                + merge_spec(qd)));
        }
        lemma_merge_straight(a);
        assert(p =~= a + q);
        lemma_exec_bal_prefix(a, q, s, fuel);
        lemma_exec_bal_prefix(merge_spec(a), merge_spec(q), s, fuel);
        lemma_merge_preserves_behavior(s, a);
        lemma_merge_preserves_program(q, exec_ops(s, a), fuel);
    } else {
        // the program opens with a loop: [ body ] rest
        assert(p[0] is JumpIfZero) by {
            if p[0] is JumpIfNotZero {
                lemma_sum_of_take_step(p, |o: Op| bracket_of(o), 0);
                assert(ir_balance(p.take(1)) >= 0);
            }
        }
        lemma_loop_shape(p);
        let j = scan_close(p, 1, 0);
        let b = p.subrange(1, j);
        let c = p.subrange(j + 1, p.len() as int);
        let o = p[0]->JumpIfZero_offset;
        // the merged program is [ merged body ] merged rest
        let mb = merge_spec(b);
        let mc = merge_spec(c);
        let mp = merge_spec(p);
        assert(mp == seq![p[0]] + mb + seq![p[j]] + mc) by {
            assert(p =~= (seq![p[0]] + b + seq![p[j]]) + c);
            lemma_merge_concat_barrier(seq![p[0]] + b + seq![p[j]], c);
            assert(merge_spec(seq![p[0]] + b + seq![p[j]]) == merge_spec(seq![p[0]] + b).push(
                p[j],
            )) by {
                assert((seq![p[0]] + b + seq![p[j]]).drop_last() =~= seq![p[0]] + b);
                assert((seq![p[0]] + b + seq![p[j]]).last() == p[j]);
            }
            assert(merge_spec(seq![p[0]] + b) == seq![p[0]] + mb) by {
                lemma_merge_concat_barrier(seq![p[0]], b);
                assert(merge_spec(seq![p[0]]) == seq![p[0]]) by {
                    assert(seq![p[0]].drop_last() =~= Seq::<Op>::empty());
                    assert(merge_spec(Seq::<Op>::empty()) == Seq::<Op>::empty());
                    assert(Seq::<Op>::empty().push(p[0]) =~= seq![p[0]]);
                }
            }
            assert((seq![p[0]] + mb).push(p[j]) + mc =~= seq![p[0]] + mb + seq![p[j]] + mc);
        }
        lemma_merge_brackets(b);
        lemma_merge_brackets(c);
        // the scanner finds the merged close at the merged body's end
        let jm = 1 + mb.len() as int;
        assert(mp.len() == 2 + mb.len() + mc.len());
        assert(mp[0] == p[0] && mp[jm] == p[j]) by {
            assert(mp =~= seq![p[0]] + mb + seq![p[j]] + mc);
        }
        assert(scan_close(mp, 1, 0) == jm) by {
            assert forall|m: int| 0 <= m <= mb.len() implies 0 + ir_balance(
                #[trigger] mp.subrange(1, 1 + m),
            ) >= 0 by {
                assert(mp.subrange(1, 1 + m) =~= mb.take(m));
                assert(ir_balance(mb.take(m)) >= 0);
            }
            lemma_scan_region(mp, 1, mb.len() as int, 0);
            assert(mp.subrange(1, jm) =~= mb);
        }
        assert(mp.subrange(1, jm) =~= mb);
        assert(mp.subrange(jm + 1, mp.len() as int) =~= mc);
        // both sides unfold the loop the same way
        if cell(s.mach.tape, s.mach.ptr + o) == 0 {
            lemma_merge_preserves_program(c, s, fuel);
        } else if fuel == 0 {
        } else {
            lemma_merge_preserves_program(b, s, fuel);
            match exec_bal(b, s, fuel) {
                Some(s1) => {
                    lemma_merge_preserves_program(p, s1, (fuel - 1) as nat);
                },
                None => {
                },
            }
        }
    }
}

} // verus!
