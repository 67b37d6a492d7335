//! Tests of the virtual CPU and the listing load format.

use bitcpu::assembler::CpuType;
use bitcpu::cpu::{Instr, RunStatus, StepOutcome, Vcpu, ADDR_INPUT, ADDR_OUTPUT};
use bitcpu::listing::{compiler, cpu_keyword, parser, program_to_listing, LoadError};

fn operation(dst: u8, a: u8, b: u8) -> Instr {
    Instr { dst, a, b }
}

#[test]
fn fresh_machine_state() {
    let cpu = Vcpu::new(CpuType::Xor);
    assert_eq!(cpu.data.len(), 256);
    assert!(cpu.data.iter().all(|&b| !b));
    assert_eq!(cpu.pc, 0);
    assert!(cpu.stack.is_empty());
    assert!(cpu.input.is_empty());
    assert_eq!(cpu.in_pos, 0);
    assert!(cpu.output.is_empty());
}

#[test]
fn the_four_operations() {
    let truth = |g: CpuType, x: bool, y: bool| -> bool {
        let mut cpu = Vcpu::new(g);
        cpu.mem_wr(1, x);
        cpu.mem_wr(2, y);
        let prog = vec![operation(0, 1, 2)];
        assert_eq!(cpu.runner(&prog, 5), RunStatus::Halted);
        cpu.data[0]
    };
    for &(x, y) in &[(false, false), (false, true), (true, false), (true, true)] {
        assert_eq!(truth(CpuType::Nand, x, y), !(x && y));
        assert_eq!(truth(CpuType::Nor, x, y), !(x || y));
        assert_eq!(truth(CpuType::Xor, x, y), x != y);
        assert_eq!(truth(CpuType::Xnor, x, y), x == y);
    }
}

#[test]
fn plain_memory_reads_back_writes() {
    let mut cpu = Vcpu::new(CpuType::Nand);
    cpu.mem_wr(0x17, true);
    assert!(cpu.mem_rd(0x17));
    cpu.mem_wr(0x17, false);
    assert!(!cpu.mem_rd(0x17));
}

#[test]
fn output_port_collects_bits_and_reads_a_constant() {
    let mut cpu = Vcpu::new(CpuType::Nand);
    cpu.mem_wr(ADDR_OUTPUT, true);
    cpu.mem_wr(ADDR_OUTPUT, false);
    assert_eq!(cpu.output, vec![true, false]);
    // Reading the port yields the CPU type's constant, not the bits.
    assert!(cpu.mem_rd(ADDR_OUTPUT));
    assert!(Vcpu::new(CpuType::Xnor).mem_rd(ADDR_OUTPUT));
    assert!(!Vcpu::new(CpuType::Nor).mem_rd(ADDR_OUTPUT));
    assert!(!Vcpu::new(CpuType::Xor).mem_rd(ADDR_OUTPUT));
}

#[test]
fn input_port_consumes_the_stream() {
    let mut cpu = Vcpu::new(CpuType::Nand);
    cpu.load_input(vec![true, false]);
    assert!(cpu.mem_rd(ADDR_INPUT));
    assert!(!cpu.mem_rd(ADDR_INPUT));
    assert_eq!(cpu.in_pos, 2);
    // Writing the input port is a no-op.
    cpu.mem_wr(ADDR_INPUT, true);
    assert_eq!(cpu.in_pos, 2);
    assert!(cpu.output.is_empty());
}

#[test]
fn echo_program_copies_input_to_output() {
    // NAND(NAND(x, x), NAND(x, x)) == x: read one bit, emit it restored.
    let mut cpu = Vcpu::new(CpuType::Nand);
    cpu.load_input(vec![true, false, true, true]);
    let prog = vec![
        operation(0x30, 0, 0),                // cell 0x30 = NAND(false, false) = true
        operation(0x10, ADDR_INPUT, 0x30),    // cell 0x10 = NAND(x, true) = !x
        operation(ADDR_OUTPUT, 0x10, 0x10),   // out = NAND(!x, !x) = x
    ];
    let mut outputs = Vec::new();
    for _ in 0..4 {
        cpu.pc = 0;
        assert_eq!(cpu.runner(&prog, 10), RunStatus::Halted);
        outputs.push(*cpu.output.last().unwrap());
    }
    assert_eq!(outputs, vec![true, false, true, true]);
}

#[test]
fn exhausted_input_stops_the_run() {
    let mut cpu = Vcpu::new(CpuType::Nand);
    let prog = vec![operation(0, ADDR_INPUT, ADDR_INPUT)];
    assert_eq!(cpu.runner(&prog, 10), RunStatus::InputExhausted);
    // A source pair naming the port twice needs two bits.
    cpu.load_input(vec![true]);
    cpu.pc = 0;
    assert_eq!(cpu.runner(&prog, 10), RunStatus::InputExhausted);
    cpu.load_input(vec![true, true]);
    cpu.pc = 0;
    assert_eq!(cpu.runner(&prog, 10), RunStatus::Halted);
    assert!(!cpu.data[0]);
}

#[test]
fn skip_form_skips_on_true() {
    // skip over a jump-to-self when the operation result is true.
    let prog = vec![
        Instr { dst: 0xfe, a: 0, b: 0 }, // NAND(false, false) = true: skip
        Instr { dst: 0xff, a: 0, b: 0 }, // jmp 0 (would loop forever)
        operation(1, 0, 0),
    ];
    let mut cpu = Vcpu::new(CpuType::Nand);
    assert_eq!(cpu.runner(&prog, 10), RunStatus::Halted);
    assert!(cpu.data[1]);
    // With XOR the same word computes false: no skip, the jump loops.
    let mut cpu = Vcpu::new(CpuType::Xor);
    assert_eq!(cpu.runner(&prog, 100), RunStatus::OutOfSteps);
}

#[test]
fn return_on_empty_stack_is_fatal() {
    let prog = vec![Instr { dst: 0xfd, a: 0, b: 0 }];
    let mut cpu = Vcpu::new(CpuType::Nand);
    assert_eq!(cpu.runner(&prog, 10), RunStatus::StackUnderflow);
}

#[test]
fn repeated_runs_of_an_input_free_program_agree() {
    // Same loaded program, no input reads: identical output streams and
    // identical final memory, run after run.
    let prog = vec![
        operation(0x20, 0, 0),
        operation(ADDR_OUTPUT, 0x20, 0),
        operation(0x21, 0x20, 0x20),
        operation(ADDR_OUTPUT, 0x21, 0x21),
    ];
    let run = |input: Vec<bool>| {
        let mut cpu = Vcpu::new(CpuType::Nand);
        cpu.load_input(input);
        let status = cpu.runner(&prog, 100);
        (status, cpu.data.clone(), cpu.output.clone())
    };
    let a = run(vec![]);
    let b = run(vec![true, true, false]);
    assert_eq!(a.0, b.0);
    assert_eq!(a.1, b.1);
    assert_eq!(a.2, b.2);
    assert_eq!(a.2, vec![true, true]);
}

#[test]
fn listing_text_is_exact() {
    let words = vec![0x000001u32, 0xff0000, 0xfd0000];
    let text = program_to_listing(CpuType::Nand, &words);
    assert_eq!(
        String::from_utf8(text).unwrap(),
        "NAND_CPU\n0x000001\n0xff0000\n0xfd0000\n"
    );
    assert_eq!(cpu_keyword(CpuType::Xnor), b"XNOR_CPU".to_vec());
}

#[test]
fn listing_round_trips_through_the_loader() {
    let words = vec![0x020304u32, 0xfe0102, 0xfc0005, 0xfd0000, 0xff0001];
    for &g in &[CpuType::Nand, CpuType::Nor, CpuType::Xor, CpuType::Xnor] {
        let text = program_to_listing(g, &words);
        let (g2, prog) = compiler(&text).unwrap();
        assert_eq!(g2, g);
        let expect: Vec<Instr> = words
            .iter()
            .map(|w| Instr {
                dst: (w >> 16) as u8,
                a: (w >> 8) as u8,
                b: *w as u8,
            })
            .collect();
        assert_eq!(prog, expect);
    }
}

#[test]
fn loader_skips_blanks_and_comments() {
    let src = b"\n# a listing\nNAND_CPU\n  0x010203  # word\n\n255\n";
    let (g, prog) = compiler(src).unwrap();
    assert_eq!(g, CpuType::Nand);
    assert_eq!(prog, vec![operation(1, 2, 3), operation(0, 0, 255)]);
}

#[test]
fn loader_errors() {
    assert_eq!(compiler(b"\n# nothing\n"), Err(LoadError::MissingHeader));
    assert_eq!(compiler(b"nand_cpu\n"), Err(LoadError::BadHeader { line: 1 }));
    assert_eq!(
        compiler(b"NAND_CPU\n0xzz\n"),
        Err(LoadError::BadWord { line: 2 })
    );
}

#[test]
fn toolchain_end_to_end() {
    // Assemble, write the listing, load it back, and run: a program that
    // emits a constant true bit and halts.
    let src = "nand_cpu\n t equ 0x20\n out equ 0xfb\n t = nand(0, 0)\n out = nand(t, t)\n \
               out = nand(0, 0)\n";
    let (cpu_type, words) = bitcpu::assembler::assembler(src.as_bytes()).unwrap();
    let text = program_to_listing(cpu_type, &words);
    let (loaded_type, prog) = compiler(&text).unwrap();
    assert_eq!(loaded_type, cpu_type);
    let mut cpu = Vcpu::new(loaded_type);
    assert_eq!(cpu.runner(&prog, 100), RunStatus::Halted);
    // NAND(false,false) = true into 0x20; NAND(t,t) = false out; then true.
    assert_eq!(cpu.output, vec![false, true]);
}

#[test]
fn parser_reads_word_literals() {
    assert_eq!(parser(b"0xff0102"), Some(0xff0102));
    assert_eq!(parser(b"258"), Some(258));
    assert_eq!(parser(b"0x"), None);
    assert_eq!(parser(b"words"), None);
}

#[test]
fn wide_words_truncate_to_their_fields() {
    // A literal wider than 24 bits keeps only the bits its fields hold.
    let (_, prog) = compiler(b"NAND_CPU\n0xff020304\n").unwrap();
    assert_eq!(prog, vec![operation(2, 3, 4)]);
}
