//! The driver: wires parser, optimizer and a back end into one pipeline.
//!
//! File reading and writing, and the invocation of an external assembler and
//! linker in assembly mode, live outside the library; the driver works from
//! source bytes to output bytes.

use vstd::prelude::*;
use crate::assembly::{asm_spec, generate_assembly};
use crate::elf::{elf_image_spec, emit_spec, generate_machine_code, wrap_elf};
use crate::ir::{IrOp, ops, total_weight};
use crate::optimizer::{
    lemma_merge_brackets, lemma_merge_len, lemma_remove_bounded, lemma_remove_brackets,
    lemma_remove_len, lemma_reorder_brackets, lemma_reorder_len, merge_operations, merge_spec,
    remove_nops, remove_spec, reorder_pointer_moves, reorder_spec,
};
use crate::parser::{ParseError, balance, balanced, generate_bytecode, parse_ops, prefixes_ok};

verus! {

/// The compiler's configuration: where to read the source and where to put
/// the executable.
pub struct Config {
    pub infile: String,
    pub outfile: String,
}

impl Config {
    pub fn new(infile: String, outfile: String) -> (c: Config)
        ensures
            c.infile@ == infile@,
            c.outfile@ == outfile@,
    {
        Config { infile, outfile }
    }
}

/// Compile source bytes to NASM-syntax assembly text: parse, run the three
/// optimizer passes in order, and lower the result.  Fails exactly on
/// bracket-unbalanced source, and returns no partial output.
pub fn compile(source: &[u8]) -> (r: Result<Vec<u8>, ParseError>)
    requires
        source@.len() <= 0x07000000,
    ensures
        r.is_ok() <==> balanced(source@),
        r matches Err(ParseError::MissingOpenBracket) <==> !prefixes_ok(source@),
        r matches Err(ParseError::MissingCloseBracket) <==> prefixes_ok(source@) && balance(
            source@,
        ) != 0,
        r matches Ok(v) ==> v@ == asm_spec(
            remove_spec(reorder_spec(merge_spec(parse_ops(source@)))),
        ),
{
    let bytecode = match generate_bytecode(source) {
        Ok(b) => b,
        Err(e) => {
            return Err(e);
        },
    };
    let ghost p0 = ops(bytecode@);
    let bytecode = merge_operations(bytecode);
    proof {
        lemma_merge_brackets(p0);
        lemma_merge_len(p0);
    }
    let bytecode = reorder_pointer_moves(bytecode);
    proof {
        lemma_reorder_brackets(merge_spec(p0));
        lemma_reorder_len(merge_spec(p0));
    }
    let ghost p2 = ops(bytecode@);
    let bytecode = remove_nops(bytecode);
    proof {
        lemma_remove_brackets(p2);
        lemma_remove_len(p2);
        lemma_remove_bounded(p2, total_weight(merge_spec(p0)));
    }
    Ok(generate_assembly(&bytecode))
}

/// Compile source bytes directly to a standalone ELF64 executable image.
/// The direct back end runs on the parser's unit-step IR, with no offset
/// folding.  Fails exactly on bracket-unbalanced source.
pub fn compile_to_elf(source: &[u8]) -> (r: Result<Vec<u8>, ParseError>)
    requires
        source@.len() <= 0x07000000,
    ensures
        r.is_ok() <==> balanced(source@),
        r matches Err(ParseError::MissingOpenBracket) <==> !prefixes_ok(source@),
        r matches Err(ParseError::MissingCloseBracket) <==> prefixes_ok(source@) && balance(
            source@,
        ) != 0,
        r matches Ok(v) ==> v@ == elf_image_spec(emit_spec(parse_ops(source@))),
{
    let bytecode = match generate_bytecode(source) {
        Ok(b) => b,
        Err(e) => {
            return Err(e);
        },
    };
    let code = generate_machine_code(&bytecode);
    Ok(wrap_elf(&code))
}

} // verus!
