//! End-to-end tests of the assembler and the virtual machine.

use bitcpu::assembler::{assembler, equ_get, parsenum, AsmError, CpuType};
use bitcpu::cpu::{Instr, RunStatus, StepOutcome, Vcpu};
use bitcpu::text::splitter;

#[test]
fn splitter_lowercases_and_splits() {
    let words = splitter(b"DEST = Nand(A, b)\t# comment");
    let expect: Vec<Vec<u8>> = vec![
        b"dest".to_vec(),
        b"=".to_vec(),
        b"nand".to_vec(),
        b"a".to_vec(),
        b"b".to_vec(),
    ];
    assert_eq!(words, expect);
    assert_eq!(splitter(b"  ; nothing here"), Vec::<Vec<u8>>::new());
    assert_eq!(splitter(b""), Vec::<Vec<u8>>::new());
}

fn asm_ok(src: &str) -> (CpuType, Vec<u32>) {
    assembler(src.as_bytes()).expect("assembly should succeed")
}

fn asm_err(src: &str) -> AsmError {
    assembler(src.as_bytes()).expect_err("assembly should fail")
}

fn decode(words: &[u32]) -> Vec<Instr> {
    words
        .iter()
        .map(|w| Instr {
            dst: ((w >> 16) & 0xff) as u8,
            a: ((w >> 8) & 0xff) as u8,
            b: (w & 0xff) as u8,
        })
        .collect()
}

#[test]
fn scenario_operation_word_and_execution() {
    // One ALU-form word with dest = 0, source A = 0, source B = 1; run
    // against all-false memory, NAND(false, false) = true lands in cell 0.
    let src = "nand_cpu\n a equ 0x00\n b equ 0x01\n a = nand(a, b)\n";
    let (gt, code) = asm_ok(src);
    assert_eq!(gt, CpuType::Nand);
    assert_eq!(code, vec![0x000001]);
    let mut cpu = Vcpu::new(gt);
    let prog = decode(&code);
    let status = cpu.runner(&prog, 10);
    assert_eq!(status, RunStatus::Halted);
    assert!(cpu.data[0]);
    assert!(!cpu.data[1]);
    assert!(cpu.stack.is_empty());
    assert!(cpu.output.is_empty());
}

#[test]
fn scenario_self_jump_never_terminates() {
    // `loop: jmp loop` assembles to one control-form word targeting slot 0;
    // the run spends any step budget without halting (cut off by the
    // budget, which is the harness's business, not the machine's).
    let src = "nand_cpu\nloop:\n jmp loop\n";
    let (gt, code) = asm_ok(src);
    assert_eq!(code, vec![0xff0000]);
    let mut cpu = Vcpu::new(gt);
    let prog = decode(&code);
    let status = cpu.runner(&prog, 10_000);
    assert_eq!(status, RunStatus::OutOfSteps);
    assert_eq!(cpu.pc, 0);
    assert!(cpu.data.iter().all(|&b| !b));
}

#[test]
fn scenario_call_and_return() {
    // A call to a subroutine that immediately returns resumes right after
    // the call, with the call stack empty afterwards.
    let src = "nand_cpu\n call sub\n jmp end\nsub:\n ret\nend:\n";
    let (gt, code) = asm_ok(src);
    assert_eq!(code, vec![0xfc0002, 0xff0003, 0xfd0000]);
    let mut cpu = Vcpu::new(gt);
    let prog = decode(&code);

    // Step one cycle: the call pushes the next slot and jumps to `sub`.
    assert_eq!(cpu.step(&prog), StepOutcome::Ran);
    assert_eq!(cpu.pc, 2);
    assert_eq!(cpu.stack, vec![1]);

    // The `ret` resumes at the slot after the call.
    assert_eq!(cpu.step(&prog), StepOutcome::Ran);
    assert_eq!(cpu.pc, 1);
    assert!(cpu.stack.is_empty());

    // The `jmp end` leaves the program; the machine halts.
    assert_eq!(cpu.step(&prog), StepOutcome::Ran);
    assert_eq!(cpu.pc, 3);
    assert_eq!(cpu.step(&prog), StepOutcome::Halted);
}

#[test]
fn forward_label_resolves_to_declaration_slot() {
    // The jump targets the label declared three code-producing statements
    // later: slot 3, independent of the other label around it.
    let src = "nand_cpu\n jmp fwd\nother:\n 2 = nand(3, 4)\n ret\nfwd:\n ret\n";
    let (_, code) = asm_ok(src);
    assert_eq!(code[0], 0xff0000 | 3);
    assert_eq!(code.len(), 4);
}

#[test]
fn backward_label_resolves_too() {
    let src = "nand_cpu\nstart:\n 2 = nand(3, 4)\n jmp start\n";
    let (_, code) = asm_ok(src);
    assert_eq!(code[1], 0xff0000);
}

#[test]
fn equ_values_are_masked_to_eight_bits() {
    // 0x1ff and 511 both store 0xff; decimal and hexadecimal spellings of
    // one value substitute identically.
    let src_hex = "nand_cpu\n a equ 0x1ff\n a = nand(a, a)\n";
    let src_dec = "nand_cpu\n a equ 511\n a = nand(a, a)\n";
    let (_, code_hex) = asm_ok(src_hex);
    let (_, code_dec) = asm_ok(src_dec);
    assert_eq!(code_hex, vec![0xffffff]);
    assert_eq!(code_hex, code_dec);
}

#[test]
fn assembling_twice_gives_identical_output() {
    let src = "nand_cpu\nl:\n skip_nand(1, 2)\n jmp l\n call l\n ret\n 3 = nand(4, 5)\n";
    let first = assembler(src.as_bytes());
    let second = assembler(src.as_bytes());
    assert_eq!(first, second);
    let (gt, code) = first.unwrap();
    assert_eq!(gt, CpuType::Nand);
    assert_eq!(
        code,
        vec![0xfe0102, 0xff0000, 0xfc0000, 0xfd0000, 0x030405]
    );
}

#[test]
fn operation_type_keywords() {
    assert_eq!(asm_ok("nand_cpu\n").0, CpuType::Nand);
    assert_eq!(asm_ok("nor_cpu\n").0, CpuType::Nor);
    assert_eq!(asm_ok("xor_cpu\n").0, CpuType::Xor);
    assert_eq!(asm_ok("XNOR_CPU\n").0, CpuType::Xnor);
}

#[test]
fn first_token_line_must_declare_operation() {
    assert_eq!(asm_err("pdp11\n ret\n"), AsmError::BadCpuType { line: 1 });
    // Blank and comment lines before the keyword are allowed.
    let (gt, code) = asm_ok("\n# header comment\n\nnand_cpu\n ret\n");
    assert_eq!(gt, CpuType::Nand);
    assert_eq!(code, vec![0xfd0000]);
    // A source with no tokens at all has no CPU type.
    assert_eq!(asm_err("\n# only a comment\n"), AsmError::MissingCpuType);
    assert_eq!(asm_err(""), AsmError::MissingCpuType);
}

#[test]
fn unknown_statements_are_fatal_with_line() {
    assert_eq!(
        asm_err("nand_cpu\n ret\n mov a, b\n"),
        AsmError::UnknownStatement { line: 3 }
    );
    // A jump without its target is no recognized form.
    assert_eq!(asm_err("nand_cpu\n jmp\n"), AsmError::UnknownStatement { line: 2 });
}

#[test]
fn bad_literals_are_fatal_with_line() {
    assert_eq!(
        asm_err("nand_cpu\n a equ 0xzz\n"),
        AsmError::BadLiteral { line: 2 }
    );
    // An unresolved jump target is neither a label nor a literal.
    assert_eq!(
        asm_err("nand_cpu\n jmp nowhere\n"),
        AsmError::BadLiteral { line: 2 }
    );
    // A literal too wide for 32 bits fails to parse.
    assert_eq!(
        asm_err("nand_cpu\n a equ 4294967296\n a = nand(a, a)\n"),
        AsmError::BadLiteral { line: 2 }
    );
}

#[test]
fn parsenum_reads_decimal_and_hexadecimal() {
    assert_eq!(parsenum(b"255", 7), Ok(255));
    assert_eq!(parsenum(b"0xff", 7), Ok(255));
    assert_eq!(parsenum(b"0x0", 7), Ok(0));
    assert_eq!(parsenum(b"4294967295", 7), Ok(0xffff_ffff));
    assert_eq!(parsenum(b"", 7), Err(AsmError::BadLiteral { line: 7 }));
    assert_eq!(parsenum(b"0x", 7), Err(AsmError::BadLiteral { line: 7 }));
    assert_eq!(parsenum(b"12a", 7), Err(AsmError::BadLiteral { line: 7 }));
    assert_eq!(
        parsenum(b"4294967296", 7),
        Err(AsmError::BadLiteral { line: 7 })
    );
}

#[test]
fn equ_get_prefers_the_table_and_masks() {
    let table = vec![
        (b"a".to_vec(), 0x12u32),
        (b"b".to_vec(), 0x345u32),
        (b"a".to_vec(), 0x99u32),
    ];
    // The latest entry for a name wins, masked to eight bits.
    assert_eq!(equ_get(&table, b"a", 4), Ok(0x99));
    assert_eq!(equ_get(&table, b"b", 4), Ok(0x45));
    // A name not in the table must be a literal.
    assert_eq!(equ_get(&table, b"0x1ff", 4), Ok(0xff));
    assert_eq!(equ_get(&table, b"c", 4), Err(AsmError::BadLiteral { line: 4 }));
}

#[test]
fn comments_and_separators_tokenize_away() {
    // `;` and `#` cut the line; parentheses and commas separate; tokens
    // come back lowercased.
    let src = "nand_cpu\n 2 = NAND(3, 4) ; trailing words\n";
    let (_, code) = asm_ok(src);
    assert_eq!(code, vec![0x020304]);
}
