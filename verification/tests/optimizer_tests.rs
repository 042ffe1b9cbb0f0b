use prion::ir::IrOp;
use prion::optimizer::{merge_operations, remove_nops, reorder_pointer_moves};
use prion::parser::generate_bytecode;

#[test]
fn merge_collapses_runs_of_adds_and_moves() {
    let ir = generate_bytecode(b"+++>>><<").unwrap();
    let merged = merge_operations(ir);
    assert_eq!(
        merged,
        vec![
            IrOp::AddToCell { value: 3, offset: 0 },
            IrOp::MovePointer { delta: 1 },
        ]
    );
}

#[test]
fn merge_does_not_cross_io_or_brackets() {
    let ir = generate_bytecode(b"+.+[+]+").unwrap();
    let merged = merge_operations(ir);
    assert_eq!(
        merged,
        vec![
            IrOp::AddToCell { value: 1, offset: 0 },
            IrOp::WriteByte { offset: 0 },
            IrOp::AddToCell { value: 1, offset: 0 },
            IrOp::JumpIfZero { offset: 0 },
            IrOp::AddToCell { value: 1, offset: 0 },
            IrOp::JumpIfNotZero { offset: 0 },
            IrOp::AddToCell { value: 1, offset: 0 },
        ]
    );
}

#[test]
fn merge_keeps_zero_sums_for_remove_nops() {
    // "+-" fuses to a zero edit and "><" to a zero move; merging keeps them
    let ir = generate_bytecode(b"+-><").unwrap();
    let merged = merge_operations(ir);
    assert_eq!(
        merged,
        vec![
            IrOp::AddToCell { value: 0, offset: 0 },
            IrOp::MovePointer { delta: 0 },
        ]
    );
    // and dead-op elimination leaves nothing
    assert_eq!(remove_nops(merged), vec![]);
}

#[test]
fn merge_is_idempotent_on_merged_output() {
    let ir = generate_bytecode(b"++>>--<<[->+<]").unwrap();
    let once = merge_operations(ir);
    let twice = merge_operations(once.clone());
    assert_eq!(once, twice);
}

#[test]
fn remove_nops_is_idempotent() {
    let ir = vec![
        IrOp::MovePointer { delta: 0 },
        IrOp::AddToCell { value: 2, offset: 1 },
        IrOp::AddToCell { value: 0, offset: 3 },
        IrOp::NoOperation,
        IrOp::MovePointer { delta: -4 },
    ];
    let once = remove_nops(ir);
    assert_eq!(
        once,
        vec![
            IrOp::AddToCell { value: 2, offset: 1 },
            IrOp::NoOperation,
            IrOp::MovePointer { delta: -4 },
        ]
    );
    let twice = remove_nops(once.clone());
    assert_eq!(once, twice);
}

#[test]
fn merge_then_remove_leaves_no_dead_ops() {
    let ir = generate_bytecode(b"+-+-><><+").unwrap();
    let cleaned = remove_nops(merge_operations(ir));
    for op in &cleaned {
        match op {
            IrOp::MovePointer { delta } => assert_ne!(*delta, 0),
            IrOp::AddToCell { value, .. } => assert_ne!(*value, 0),
            _ => {}
        }
    }
    assert_eq!(cleaned, vec![IrOp::AddToCell { value: 1, offset: 0 }]);
}

#[test]
fn reorder_folds_moves_into_offsets() {
    let ir = generate_bytecode(b">+>->.").unwrap();
    let out = reorder_pointer_moves(merge_operations(ir));
    assert_eq!(
        out,
        vec![
            IrOp::AddToCell { value: 1, offset: 1 },
            IrOp::AddToCell { value: -1, offset: 2 },
            IrOp::WriteByte { offset: 3 },
        ]
    );
}

#[test]
fn reorder_realigns_pointer_at_loop_close() {
    // the loop body's net movement is zero, so the synthetic move is zero too
    let ir = generate_bytecode(b"[<+>-]").unwrap();
    let out = reorder_pointer_moves(merge_operations(ir));
    assert_eq!(
        out,
        vec![
            IrOp::JumpIfZero { offset: 0 },
            IrOp::AddToCell { value: 1, offset: -1 },
            IrOp::AddToCell { value: -1, offset: 0 },
            IrOp::MovePointer { delta: 0 },
            IrOp::JumpIfNotZero { offset: 0 },
        ]
    );
    // between the two jumps the emitted pointer moves sum to zero
    let moves: i64 = out[1..4]
        .iter()
        .map(|o| match o {
            IrOp::MovePointer { delta } => *delta,
            _ => 0,
        })
        .sum();
    assert_eq!(moves, 0);
}

#[test]
fn reorder_emits_realigning_move_for_drifting_loop() {
    // the body moves right once per iteration; the synthetic move carries it
    let ir = generate_bytecode(b"[>+]").unwrap();
    let out = reorder_pointer_moves(merge_operations(ir));
    assert_eq!(
        out,
        vec![
            IrOp::JumpIfZero { offset: 0 },
            IrOp::AddToCell { value: 1, offset: 1 },
            IrOp::MovePointer { delta: 1 },
            IrOp::JumpIfNotZero { offset: 0 },
        ]
    );
}
