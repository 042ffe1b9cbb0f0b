use prion::ir::IrOp;
use prion::parser::{ParseError, generate_bytecode};

#[test]
fn eight_commands_map_to_ops() {
    let ir = generate_bytecode(b"><+-.,[]").unwrap();
    assert_eq!(
        ir,
        vec![
            IrOp::MovePointer { delta: 1 },
            IrOp::MovePointer { delta: -1 },
            IrOp::AddToCell { value: 1, offset: 0 },
            IrOp::AddToCell { value: -1, offset: 0 },
            IrOp::WriteByte { offset: 0 },
            IrOp::ReadByte { offset: 0 },
            IrOp::JumpIfZero { offset: 0 },
            IrOp::JumpIfNotZero { offset: 0 },
        ]
    );
}

#[test]
fn comment_bytes_are_discarded() {
    let ir = generate_bytecode(b"hello + world - !\n").unwrap();
    assert_eq!(
        ir,
        vec![
            IrOp::AddToCell { value: 1, offset: 0 },
            IrOp::AddToCell { value: -1, offset: 0 },
        ]
    );
}

#[test]
fn empty_source_parses_to_empty_ir() {
    assert_eq!(generate_bytecode(b"").unwrap(), vec![]);
}

#[test]
fn nested_balanced_brackets_are_accepted() {
    assert!(generate_bytecode(b"[[+][-]]").is_ok());
}

#[test]
fn unbalanced_open_is_missing_close_bracket() {
    assert_eq!(
        generate_bytecode(b"[+"),
        Err(ParseError::MissingCloseBracket)
    );
}

#[test]
fn unbalanced_close_is_missing_open_bracket() {
    assert_eq!(
        generate_bytecode(b"+]"),
        Err(ParseError::MissingOpenBracket)
    );
}

#[test]
fn close_before_open_is_missing_open_bracket() {
    // balanced as a multiset but not at every prefix
    assert_eq!(generate_bytecode(b"]["), Err(ParseError::MissingOpenBracket));
}
