use prion::driver::compile_to_elf;
use prion::parser::ParseError;

fn le32(img: &[u8], at: usize) -> u32 {
    u32::from_le_bytes([img[at], img[at + 1], img[at + 2], img[at + 3]])
}

fn le64(img: &[u8], at: usize) -> u64 {
    let mut b = [0u8; 8];
    b.copy_from_slice(&img[at..at + 8]);
    u64::from_le_bytes(b)
}

fn le16(img: &[u8], at: usize) -> u16 {
    u16::from_le_bytes([img[at], img[at + 1]])
}

const PROLOGUE: [u8; 10] = [
    0x48, 0x81, 0xEC, 0x00, 0x80, 0x00, 0x00, // sub rsp, 0x8000
    0x48, 0x89, 0xE6, // mov rsi, rsp
];

const EPILOGUE: [u8; 9] = [
    0xB8, 0x3C, 0x00, 0x00, 0x00, // mov eax, 60
    0x31, 0xFF, // xor edi, edi
    0x0F, 0x05, // syscall
];

#[test]
fn elf_image_has_expected_header_fields() {
    let img = compile_to_elf(b"+").unwrap();
    assert_eq!(&img[0..4], &[0x7F, 0x45, 0x4C, 0x46]);
    assert_eq!(img[4], 2); // 64-bit
    assert_eq!(img[5], 1); // little-endian
    assert_eq!(le16(&img, 16), 2); // ET_EXEC
    assert_eq!(le16(&img, 18), 0x3E); // EM_X86_64
    assert_eq!(le64(&img, 24), 0x400078); // e_entry
    assert_eq!(le64(&img, 32), 64); // e_phoff
    assert_eq!(le16(&img, 52), 64); // e_ehsize
    assert_eq!(le16(&img, 54), 56); // e_phentsize
    assert_eq!(le16(&img, 56), 1); // e_phnum
    // program header
    assert_eq!(le32(&img, 64), 1); // PT_LOAD
    assert_eq!(le32(&img, 68), 5); // PF_R | PF_X
    assert_eq!(le64(&img, 80), 0x400000); // p_vaddr
    assert_eq!(le64(&img, 96), img.len() as u64); // p_filesz covers the file
    assert_eq!(le64(&img, 104), img.len() as u64); // p_memsz
    assert_eq!(le64(&img, 112), 0x1000); // p_align
}

#[test]
fn elf_header_fields_are_mutually_consistent() {
    // e_phoff + e_phentsize * e_phnum <= e_entry - p_vaddr <= p_filesz
    let img = compile_to_elf(b"+[>,<-.]").unwrap();
    let e_phoff = le64(&img, 32);
    let e_phentsize = le16(&img, 54) as u64;
    let e_phnum = le16(&img, 56) as u64;
    let e_entry = le64(&img, 24);
    let p_vaddr = le64(&img, 80);
    let p_filesz = le64(&img, 96);
    assert!(e_phoff + e_phentsize * e_phnum <= e_entry - p_vaddr);
    assert!(e_entry - p_vaddr <= p_filesz);
}

#[test]
fn code_section_holds_expected_instruction_bytes() {
    let img = compile_to_elf(b"+-.").unwrap();
    let mut expected: Vec<u8> = Vec::new();
    expected.extend_from_slice(&PROLOGUE);
    expected.extend_from_slice(&[0x80, 0x06, 0x01]); // add byte [rsi], 1
    expected.extend_from_slice(&[0x80, 0x2E, 0x01]); // sub byte [rsi], 1
    expected.extend_from_slice(&[
        0xB8, 0x01, 0x00, 0x00, 0x00, // mov eax, 1
        0xBF, 0x01, 0x00, 0x00, 0x00, // mov edi, 1
        0xBA, 0x01, 0x00, 0x00, 0x00, // mov edx, 1
        0x0F, 0x05, // syscall
    ]);
    expected.extend_from_slice(&EPILOGUE);
    assert_eq!(&img[120..], expected.as_slice());
}

#[test]
fn jump_displacements_are_patched_as_exact_negatives() {
    let img = compile_to_elf(b"[-]").unwrap();
    let code = &img[120..];
    // layout: prologue(10), cmp+je(9), sub byte(3), cmp+jne(9), epilogue(9)
    assert_eq!(&code[10..15], &[0x80, 0x3E, 0x00, 0x0F, 0x84]); // cmp; je
    let open_end = 19;
    assert_eq!(&code[19..22], &[0x80, 0x2E, 0x01]); // sub byte [rsi], 1
    assert_eq!(&code[22..27], &[0x80, 0x3E, 0x00, 0x0F, 0x85]); // cmp; jne
    let close_end = 31;
    let fwd = le32(code, open_end - 4) as i32;
    let bwd = le32(code, close_end - 4) as i32;
    assert_eq!(fwd, (close_end - open_end) as i32);
    assert_eq!(bwd, -(fwd));
    assert_eq!(fwd + bwd, 0);
}

#[test]
fn read_lowering_zeroes_eax_and_edi() {
    let img = compile_to_elf(b",").unwrap();
    let code = &img[120..];
    assert_eq!(
        &code[10..21],
        &[0x31, 0xC0, 0x31, 0xFF, 0xBA, 0x01, 0x00, 0x00, 0x00, 0x0F, 0x05]
    );
}

#[test]
fn pointer_moves_lower_to_inc_dec_of_rsi() {
    let img = compile_to_elf(b"><").unwrap();
    let code = &img[120..];
    assert_eq!(&code[10..14], &[0x48, 0x83, 0xC6, 0x01]); // add rsi, 1
    assert_eq!(&code[14..18], &[0x48, 0x83, 0xEE, 0x01]); // sub rsi, 1
}

#[test]
fn unbalanced_sources_produce_no_image() {
    assert_eq!(compile_to_elf(b"[+"), Err(ParseError::MissingCloseBracket));
    assert_eq!(compile_to_elf(b"+]"), Err(ParseError::MissingOpenBracket));
}
