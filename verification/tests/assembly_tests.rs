use prion::driver::{Config, compile};
use prion::parser::ParseError;

const PROLOGUE: &str = "section .text\nglobal _start\n_start:\nsub rsp, 1\nmov edx, 1\n";
const EPILOGUE: &str = "mov eax, 0x3c\nxor edi, edi\nsyscall\n";

fn text_of(source: &[u8]) -> String {
    String::from_utf8(compile(source).expect("source must be balanced")).unwrap()
}

#[test]
fn empty_program_is_prologue_and_exit() {
    assert_eq!(text_of(b""), format!("{}{}", PROLOGUE, EPILOGUE));
}

#[test]
fn single_add_lowers_to_add_byte() {
    assert_eq!(
        text_of(b"+"),
        format!("{}add BYTE [rsp-0], 1\n{}", PROLOGUE, EPILOGUE)
    );
}

#[test]
fn run_of_adds_is_merged_into_one_instruction() {
    assert_eq!(
        text_of(b"+++++"),
        format!("{}add BYTE [rsp-0], 5\n{}", PROLOGUE, EPILOGUE)
    );
}

#[test]
fn loop_gets_label_pair_from_counter() {
    assert_eq!(
        text_of(b"[-]"),
        format!(
            "{}cmp BYTE [rsp-0], 0\nje L0_\nL0:\nadd BYTE [rsp-0], -1\ncmp BYTE [rsp-0], 0\njne L0\nL0_:\n{}",
            PROLOGUE, EPILOGUE
        )
    );
}

#[test]
fn sibling_loops_use_fresh_labels() {
    let text = text_of(b"[-][-]");
    assert!(text.contains("je L0_"));
    assert!(text.contains("jne L0"));
    assert!(text.contains("je L1_"));
    assert!(text.contains("jne L1"));
}

#[test]
fn moves_fold_into_memory_offsets() {
    assert_eq!(
        text_of(b">+"),
        format!("{}add BYTE [rsp-1], 1\n{}", PROLOGUE, EPILOGUE)
    );
}

#[test]
fn write_lowers_to_syscall_sequence() {
    assert_eq!(
        text_of(b"."),
        format!(
            "{}mov eax, 1\nmov edi, 1\nlea rsi, [rsp-0]\nsyscall\n{}",
            PROLOGUE, EPILOGUE
        )
    );
}

#[test]
fn read_lowers_to_syscall_sequence() {
    assert_eq!(
        text_of(b","),
        format!(
            "{}xor eax, eax\nxor edi, edi\nlea rsi, [rsp-0]\nsyscall\n{}",
            PROLOGUE, EPILOGUE
        )
    );
}

#[test]
fn negative_offsets_are_printed_signed() {
    // a move left folds into a negative offset, as the lowering prints it
    let text = text_of(b"<.");
    assert!(text.contains("lea rsi, [rsp--1]\n"));
}

#[test]
fn compile_rejects_unbalanced_sources() {
    assert_eq!(compile(b"[+"), Err(ParseError::MissingCloseBracket));
    assert_eq!(compile(b"+]"), Err(ParseError::MissingOpenBracket));
}

#[test]
fn config_keeps_its_paths() {
    let c = Config::new(String::from("in.b"), String::from("a.out"));
    assert_eq!(c.infile, "in.b");
    assert_eq!(c.outfile, "a.out");
}
