//! End-to-end scenarios: the optimized IR of whole programs is executed by a
//! reference interpreter and its I/O compared with the expected output.

use prion::ir::IrOp;
use prion::optimizer::{merge_operations, remove_nops, reorder_pointer_moves};
use prion::parser::generate_bytecode;
use std::collections::HashMap;

/// Run IR on a Brainfuck machine: 8-bit wrapping cells, pointer starting at
/// 0, EOF reads as zero.  Returns the bytes written.
fn interpret(ir: &[IrOp], mut input: &[u8]) -> Vec<u8> {
    // match brackets in one pass
    let mut matches: HashMap<usize, usize> = HashMap::new();
    let mut stack: Vec<usize> = Vec::new();
    for (i, op) in ir.iter().enumerate() {
        match op {
            IrOp::JumpIfZero { .. } => stack.push(i),
            IrOp::JumpIfNotZero { .. } => {
                let j = stack.pop().expect("unmatched close bracket");
                matches.insert(i, j);
                matches.insert(j, i);
            }
            _ => {}
        }
    }
    assert!(stack.is_empty(), "unmatched open bracket");

    let mut tape: HashMap<i64, u8> = HashMap::new();
    let mut ptr: i64 = 0;
    let mut out: Vec<u8> = Vec::new();
    let mut pc: usize = 0;
    while pc < ir.len() {
        match ir[pc] {
            IrOp::NoOperation => {}
            IrOp::MovePointer { delta } => ptr += delta,
            IrOp::AddToCell { value, offset } => {
                let cell = tape.entry(ptr + offset).or_insert(0);
                *cell = cell.wrapping_add((value & 0xFF) as u8);
            }
            IrOp::WriteByte { offset } => {
                out.push(*tape.get(&(ptr + offset)).unwrap_or(&0));
            }
            IrOp::ReadByte { offset } => {
                let b = if input.is_empty() {
                    0
                } else {
                    let b = input[0];
                    input = &input[1..];
                    b
                };
                tape.insert(ptr + offset, b);
            }
            IrOp::JumpIfZero { offset } => {
                if *tape.get(&(ptr + offset)).unwrap_or(&0) == 0 {
                    pc = matches[&pc];
                }
            }
            IrOp::JumpIfNotZero { offset } => {
                if *tape.get(&(ptr + offset)).unwrap_or(&0) != 0 {
                    pc = matches[&pc];
                }
            }
        }
        pc += 1;
    }
    out
}

fn optimized(source: &[u8]) -> Vec<IrOp> {
    let ir = generate_bytecode(source).expect("source must be balanced");
    remove_nops(reorder_pointer_moves(merge_operations(ir)))
}

const HELLO: &[u8] =
    b"++++++++[>++++[>++>+++>+++>+<<<<-]>+>+>->>+[<]<-]>>.>---.+++++++..+++.>>.<-.<.+++.------.--------.>>+.>++.";

#[test]
fn hello_world_program_prints_hello_world() {
    let out = interpret(&optimized(HELLO), b"");
    assert_eq!(out, b"Hello World!\n".to_vec());
}

#[test]
fn hello_world_unoptimized_matches_optimized() {
    let plain = generate_bytecode(HELLO).unwrap();
    assert_eq!(interpret(&plain, b""), interpret(&optimized(HELLO), b""));
}

#[test]
fn echo_program_copies_stdin_until_eof() {
    let out = interpret(&optimized(b",[.,]"), b"abc");
    assert_eq!(out, b"abc".to_vec());
}

#[test]
fn cell_wraps_below_zero_to_0xff() {
    let out = interpret(&optimized(b"-."), b"");
    assert_eq!(out, vec![0xFF]);
}

#[test]
fn loop_on_zero_cell_is_skipped() {
    let out = interpret(&optimized(b"[+++++.]"), b"");
    assert_eq!(out, Vec::<u8>::new());
}
