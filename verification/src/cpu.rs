//! The virtual CPU: a 256-cell boolean memory driven by a single two-input
//! boolean operation, with memory-mapped bit input, bit output, and control transfer.
//!
//! Every machine word holds three 8-bit fields: destination, source A and
//! source B. A destination below the reserved range is an ALU-form
//! instruction: the operation on the two source cells is written to the
//! destination cell. The four reserved destination values are the control
//! registers; a word addressed to one of them is a control-form instruction:
//!
//! - `0xff` (jump): the program counter is set to the 16-bit target held in
//!   the source fields.
//! - `0xfc` (call): the index of the next slot is pushed on the call stack,
//!   then the program counter is set to the 16-bit target.
//! - `0xfd` (return): the program counter is popped off the call stack;
//!   popping an empty stack is a fatal runtime condition.
//! - `0xfe` (skip): the operation on the two source cells is computed, and the
//!   following slot is skipped when the result is true.
//!
//! Two further addresses are mapped to I/O rather than storage: reading
//! `0xfa` consumes one bit from the input stream, and writing `0xfb` appends
//! one bit to the output stream. Reading `0xfb` yields a constant that
//! depends on the CPU type alone: true for the NAND and XNOR machines,
//! false for the NOR and XOR machines. Writing `0xfa` is a no-op. All other
//! addresses are plain storage.
//!
//! Execution starts at program-counter zero and ends when the counter runs
//! off the end of the program; a program that never does (an intentional
//! endless loop) runs as long as it is given steps.

use vstd::prelude::*;

use crate::assembler::CpuType;

verus! {

/// Address of the input port: reading it consumes one bit of input.
pub const ADDR_INPUT: u8 = 0xfa;

/// Address of the output port: writing it emits one bit of output.
pub const ADDR_OUTPUT: u8 = 0xfb;

/// Destination tag of a call instruction.
pub const TAG_CALL: u8 = 0xfc;

/// Destination tag of a return instruction.
pub const TAG_RET: u8 = 0xfd;

/// Destination tag of a skip instruction.
pub const TAG_SKIP: u8 = 0xfe;

/// Destination tag of a jump instruction.
pub const TAG_JMP: u8 = 0xff;

/// The number of memory cells.
pub const MEM_SIZE: usize = 256;

/// One machine word, decoded: destination, source A, source B.
#[derive(Clone, Copy, PartialEq, Eq, Structural, Debug)]
pub struct Instr {
    pub dst: u8,
    pub a: u8,
    pub b: u8,
}

/// What one fetch-execute cycle did.
#[derive(Clone, Copy, PartialEq, Eq, Structural, Debug)]
pub enum StepOutcome {
    /// An instruction executed and the machine can continue.
    Ran,
    /// The program counter stands at or past the end of the program.
    Halted,
    /// A return instruction found the call stack empty: a fatal condition.
    StackUnderflow,
    /// A read of the input port found the input stream exhausted.
    InputExhausted,
}

/// Why a run ended.
#[derive(Clone, Copy, PartialEq, Eq, Structural, Debug)]
pub enum RunStatus {
    /// The program counter ran off the end of the program.
    Halted,
    /// A return instruction found the call stack empty.
    StackUnderflow,
    /// A read of the input port found the input stream exhausted.
    InputExhausted,
    /// The step budget was spent before the program ended.
    OutOfSteps,
}

/// The mathematical state of the machine.
pub ghost struct CpuView {
    /// The boolean operation this machine computes, fixed for the whole program.
    pub cputype: CpuType,
    /// The 256 memory cells.
    pub data: Seq<bool>,
    /// The program counter: an index into the program, not a memory address.
    pub pc: nat,
    /// The call stack of saved return slots, most recent last.
    pub stack: Seq<nat>,
    /// The input stream of bits, fixed for the run.
    pub input: Seq<bool>,
    /// How many input bits have been consumed.
    pub in_pos: nat,
    /// The bits emitted so far.
    pub output: Seq<bool>,
}

/// Validity of a machine state: full-size memory and an input cursor within
/// the stream.
pub open spec fn cpu_wf(v: CpuView) -> bool {
    &&& v.data.len() == MEM_SIZE
    &&& v.in_pos <= v.input.len()
}

/// The value of the machine's boolean operation on two bits.
pub open spec fn spec_alu_op(g: CpuType, x: bool, y: bool) -> bool {
    match g {
        CpuType::Nand => !(x && y),
        CpuType::Nor => !(x || y),
        CpuType::Xor => x != y,
        CpuType::Xnor => x == y,
    }
}

/// The constant a read of the output port yields, per CPU type.
pub open spec fn spec_output_read(g: CpuType) -> bool {
    match g {
        CpuType::Nand => true,
        CpuType::Xnor => true,
        CpuType::Nor => false,
        CpuType::Xor => false,
    }
}

/// The 16-bit control-form target held in an instruction's source fields.
pub open spec fn spec_target(ins: Instr) -> nat {
    (ins.a as nat) * 0x100 + (ins.b as nat)
}

/// How many input bits an ALU-form instruction consumes: one per source
/// field that names the input port.
pub open spec fn spec_reads_needed(ins: Instr) -> nat {
    (if ins.a == ADDR_INPUT {
        1 as nat
    } else {
        0 as nat
    }) + (if ins.b == ADDR_INPUT {
        1 as nat
    } else {
        0 as nat
    })
}

/// One source-operand read at input cursor `pos`: the value and the new
/// cursor. The input port consumes a bit, the output port yields its
/// constant, everything else is the stored cell.
pub open spec fn spec_read(v: CpuView, addr: u8, pos: nat) -> (bool, nat) {
    if addr == ADDR_INPUT {
        (v.input[pos as int], pos + 1)
    } else if addr == ADDR_OUTPUT {
        (spec_output_read(v.cputype), pos)
    } else {
        (v.data[addr as int], pos)
    }
}

/// One destination write: the input port swallows the value, the output
/// port emits it, everything else stores it.
pub open spec fn spec_write(v: CpuView, addr: u8, value: bool) -> CpuView {
    if addr == ADDR_INPUT {
        v
    } else if addr == ADDR_OUTPUT {
        CpuView { output: v.output.push(value), ..v }
    } else {
        CpuView { data: v.data.update(addr as int, value), ..v }
    }
}

/// One fetch-execute cycle: the next state and what happened. With the
/// program counter past the end the machine is halted and nothing changes.
/// A control-form word transfers control as its tag says; any other word is
/// ALU-form: both sources are read (consuming input where a source names
/// the input port, source A first), the operation is computed, and the result is
/// written to the destination — or, for the skip tag, used to skip the next
/// slot instead of being stored.
pub open spec fn spec_step(v: CpuView, prog: Seq<Instr>) -> (CpuView, StepOutcome) {
    if v.pc >= prog.len() {
        (v, StepOutcome::Halted)
    } else {
        let ins = prog[v.pc as int];
        if ins.dst == TAG_JMP {
            (CpuView { pc: spec_target(ins), ..v }, StepOutcome::Ran)
        } else if ins.dst == TAG_CALL {
            (
                CpuView { pc: spec_target(ins), stack: v.stack.push(v.pc + 1), ..v },
                StepOutcome::Ran,
            )
        } else if ins.dst == TAG_RET {
            if v.stack.len() == 0 {
                (v, StepOutcome::StackUnderflow)
            } else {
                (CpuView { pc: v.stack.last(), stack: v.stack.drop_last(), ..v }, StepOutcome::Ran)
            }
        } else {
            if v.in_pos + spec_reads_needed(ins) > v.input.len() {
                (v, StepOutcome::InputExhausted)
            } else {
                let (va, pos1) = spec_read(v, ins.a, v.in_pos);
                let (vb, pos2) = spec_read(v, ins.b, pos1);
                let result = spec_alu_op(v.cputype, va, vb);
                let moved = CpuView { in_pos: pos2, ..v };
                if ins.dst == TAG_SKIP {
                    (
                        CpuView {
                            pc: v.pc + (if result {
                                2 as nat
                            } else {
                                1 as nat
                            }),
                            ..moved
                        },
                        StepOutcome::Ran,
                    )
                } else {
                    (
                        CpuView { pc: v.pc + 1, ..spec_write(moved, ins.dst, result) },
                        StepOutcome::Ran,
                    )
                }
            }
        }
    }
}

/// Up to `fuel` cycles from `v`: the final state and why the run ended.
pub open spec fn spec_run(v: CpuView, prog: Seq<Instr>, fuel: nat) -> (CpuView, RunStatus)
    decreases fuel,
{
    if v.pc >= prog.len() {
        (v, RunStatus::Halted)
    } else if fuel == 0 {
        (v, RunStatus::OutOfSteps)
    } else {
        let so = spec_step(v, prog);
        match so.1 {
            StepOutcome::Ran => spec_run(so.0, prog, (fuel - 1) as nat),
            StepOutcome::Halted => (so.0, RunStatus::Halted),
            StepOutcome::StackUnderflow => (so.0, RunStatus::StackUnderflow),
            StepOutcome::InputExhausted => (so.0, RunStatus::InputExhausted),
        }
    }
}

/// The virtual CPU. Its mathematical state is [`CpuView`]; the input stream
/// is held as data so that a run is a pure function of the loaded state.
pub struct Vcpu {
    /// The boolean operation this machine computes.
    pub cputype: CpuType,
    /// The 256 memory cells.
    pub data: Vec<bool>,
    /// The program counter.
    pub pc: usize,
    /// The call stack of saved return slots.
    pub stack: Vec<usize>,
    /// The input stream of bits.
    pub input: Vec<bool>,
    /// How many input bits have been consumed.
    pub in_pos: usize,
    /// The bits emitted so far.
    pub output: Vec<bool>,
}

impl View for Vcpu {
    type V = CpuView;

    open spec fn view(&self) -> CpuView {
        CpuView {
            cputype: self.cputype,
            data: self.data@,
            pc: self.pc as nat,
            stack: self.stack@.map_values(|x: usize| x as nat),
            input: self.input@,
            in_pos: self.in_pos as nat,
            output: self.output@,
        }
    }
}

impl Vcpu {
    /// Validity of this machine; see [`cpu_wf`].
    pub open spec fn wf(&self) -> bool {
        cpu_wf(self@)
    }

    /// A fresh machine of the given CPU type: memory all false, program
    /// counter zero, empty call stack, empty input and output streams.
    pub fn new(cputype: CpuType) -> (r: Vcpu)
        ensures
            r.wf(),
            r@ == (CpuView {
                cputype: cputype,
                data: Seq::new(MEM_SIZE as nat, |i: int| false),
                pc: 0,
                stack: Seq::<nat>::empty(),
                input: Seq::<bool>::empty(),
                in_pos: 0,
                output: Seq::<bool>::empty(),
            }),
    {
        let mut data: Vec<bool> = Vec::new();
        let mut i: usize = 0;
        while i < MEM_SIZE
            invariant
                i <= MEM_SIZE,
                data@ =~= Seq::new(i as nat, |j: int| false),
            decreases MEM_SIZE - i,
        {
            data.push(false);
            proof {
                assert(data@ =~= Seq::new(i as nat + 1, |j: int| false));
            }
            i = i + 1;
        }
        let r = Vcpu {
            cputype,
            data,
            pc: 0,
            stack: Vec::new(),
            input: Vec::new(),
            in_pos: 0,
            output: Vec::new(),
        };
        proof {
            assert(r@.stack =~= Seq::<nat>::empty());
        }
        r
    }

    /// Loads the bit stream the input port will consume and rewinds the
    /// input cursor; the rest of the machine is untouched.
    pub fn load_input(&mut self, bits: Vec<bool>)
        ensures
            final(self)@ == (CpuView { input: bits@, in_pos: 0, ..old(self)@ }),
            old(self).wf() ==> final(self).wf(),
    {
        self.input = bits;
        self.in_pos = 0;
    }

    /// Reads one memory cell, with the mapped side effects: address `0xfa`
    /// consumes the next input bit (the caller must have one left), address
    /// `0xfb` yields the CPU type's constant, every other address yields
    /// the stored bit; see [`spec_read`].
    pub fn mem_rd(&mut self, addr: u8) -> (r: bool)
        requires
            old(self).wf(),
            addr == ADDR_INPUT ==> old(self)@.in_pos < old(self)@.input.len(),
        ensures
            final(self).wf(),
            r == spec_read(old(self)@, addr, old(self)@.in_pos).0,
            final(self)@ == (CpuView {
                in_pos: spec_read(old(self)@, addr, old(self)@.in_pos).1,
                ..old(self)@
            }),
    {
        if addr == ADDR_INPUT {
            let n = self.input.len();
            let bit = self.input[self.in_pos];
            proof {
                assert(self.in_pos < n);
            }
            self.in_pos = self.in_pos + 1;
            bit
        } else if addr == ADDR_OUTPUT {
            match self.cputype {
                CpuType::Nand => true,
                CpuType::Xnor => true,
                CpuType::Nor => false,
                CpuType::Xor => false,
            }
        } else {
            self.data[addr as usize]
        }
    }

    /// Writes one memory cell, with the mapped side effects: address `0xfa`
    /// swallows the value, address `0xfb` emits it on the output stream,
    /// every other address stores it; see [`spec_write`].
    pub fn mem_wr(&mut self, addr: u8, value: bool)
        requires
            old(self).wf(),
        ensures
            final(self).wf(),
            final(self)@ == spec_write(old(self)@, addr, value),
    {
        if addr == ADDR_INPUT {
        } else if addr == ADDR_OUTPUT {
            self.output.push(value);
        } else {
            self.data.set(addr as usize, value);
        }
    }

    /// One fetch-execute cycle against `prog`; see [`spec_step`].
    pub fn step(&mut self, prog: &Vec<Instr>) -> (o: StepOutcome)
        requires
            old(self).wf(),
            prog@.len() < usize::MAX,
        ensures
            final(self).wf(),
            (final(self)@, o) == spec_step(old(self)@, prog@),
    {
        if self.pc >= prog.len() {
            return StepOutcome::Halted;
        }
        let ins = prog[self.pc];
        if ins.dst == TAG_JMP {
            self.pc = (ins.a as usize) * 0x100 + (ins.b as usize);
            return StepOutcome::Ran;
        }
        if ins.dst == TAG_CALL {
            let ghost old_stack = self@.stack;
            self.stack.push(self.pc + 1);
            proof {
                assert(self@.stack =~= old_stack.push(old(self)@.pc + 1));
            }
            self.pc = (ins.a as usize) * 0x100 + (ins.b as usize);
            return StepOutcome::Ran;
        }
        if ins.dst == TAG_RET {
            let ghost old_stack = self@.stack;
            match self.stack.pop() {
                None => {
                    return StepOutcome::StackUnderflow;
                },
                Some(t) => {
                    proof {
                        assert(old_stack.len() > 0);
                        assert(t as nat == old_stack.last());
                        assert(self@.stack =~= old_stack.drop_last());
                    }
                    self.pc = t;
                    return StepOutcome::Ran;
                },
            }
        }
        let needed: usize = (if ins.a == ADDR_INPUT {
            1
        } else {
            0
        }) + (if ins.b == ADDR_INPUT {
            1
        } else {
            0
        });
        if needed > self.input.len() - self.in_pos {
            return StepOutcome::InputExhausted;
        }
        let va = self.mem_rd(ins.a);
        let vb = self.mem_rd(ins.b);
        let result = match self.cputype {
            CpuType::Nand => !(va && vb),
            CpuType::Nor => !(va || vb),
            CpuType::Xor => va != vb,
            CpuType::Xnor => va == vb,
        };
        if ins.dst == TAG_SKIP {
            if result {
                self.pc = self.pc + 2;
            } else {
                self.pc = self.pc + 1;
            }
            return StepOutcome::Ran;
        }
        self.mem_wr(ins.dst, result);
        self.pc = self.pc + 1;
        StepOutcome::Ran
    }

    /// Runs from the current state for at most `max_steps` cycles; see
    /// [`spec_run`]. The machine halts when the program counter leaves the
    /// program; an endless loop spends the whole budget and reports
    /// [`RunStatus::OutOfSteps`].
    pub fn runner(&mut self, prog: &Vec<Instr>, max_steps: u64) -> (r: RunStatus)
        requires
            old(self).wf(),
            prog@.len() < usize::MAX,
        ensures
            final(self).wf(),
            (final(self)@, r) == spec_run(old(self)@, prog@, max_steps as nat),
    {
        let mut fuel: u64 = max_steps;
        loop
            invariant
                self.wf(),
                prog@.len() < usize::MAX,
                spec_run(old(self)@, prog@, max_steps as nat) == spec_run(
                    self@,
                    prog@,
                    fuel as nat,
                ),
            decreases fuel,
        {
            if self.pc >= prog.len() {
                return RunStatus::Halted;
            }
            if fuel == 0 {
                return RunStatus::OutOfSteps;
            }
            let ghost prev = self@;
            let o = self.step(prog);
            match o {
                StepOutcome::Ran => {
                    fuel = fuel - 1;
                },
                StepOutcome::Halted => {
                    return RunStatus::Halted;
                },
                StepOutcome::StackUnderflow => {
                    return RunStatus::StackUnderflow;
                },
                StepOutcome::InputExhausted => {
                    return RunStatus::InputExhausted;
                },
            }
        }
    }
}

/// A step preserves state validity.
pub proof fn lemma_step_wf(v: CpuView, prog: Seq<Instr>)
    requires
        cpu_wf(v),
    ensures
        cpu_wf(spec_step(v, prog).0),
{
}

/// A run preserves state validity.
pub proof fn lemma_run_wf(v: CpuView, prog: Seq<Instr>, fuel: nat)
    requires
        cpu_wf(v),
    ensures
        cpu_wf(spec_run(v, prog, fuel).0),
    decreases fuel,
{
    if v.pc >= prog.len() || fuel == 0 {
    } else {
        let so = spec_step(v, prog);
        lemma_step_wf(v, prog);
        if so.1 == StepOutcome::Ran {
            lemma_run_wf(so.0, prog, (fuel - 1) as nat);
        }
    }
}

/// Two machine states that agree on everything but the input stream itself
/// (same CPU type, memory, counters, call stack, input cursor and output).
pub open spec fn spec_same_but_input(v1: CpuView, v2: CpuView) -> bool {
    v2 == (CpuView { input: v2.input, ..v1 })
}

/// The input cursor never moves backwards in one step.
proof fn lemma_step_in_pos_monotone(v: CpuView, prog: Seq<Instr>)
    ensures
        spec_step(v, prog).0.in_pos >= v.in_pos,
{
}

/// The input cursor never moves backwards over a run.
proof fn lemma_run_in_pos_monotone(v: CpuView, prog: Seq<Instr>, fuel: nat)
    ensures
        spec_run(v, prog, fuel).0.in_pos >= v.in_pos,
    decreases fuel,
{
    if v.pc >= prog.len() || fuel == 0 {
    } else {
        let so = spec_step(v, prog);
        lemma_step_in_pos_monotone(v, prog);
        if so.1 == StepOutcome::Ran {
            lemma_run_in_pos_monotone(so.0, prog, (fuel - 1) as nat);
        }
    }
}

/// A step that consumes no input behaves alike under any input stream.
proof fn lemma_step_no_input(v1: CpuView, v2: CpuView, prog: Seq<Instr>)
    requires
        cpu_wf(v1),
        cpu_wf(v2),
        spec_same_but_input(v1, v2),
        spec_step(v1, prog).1 == StepOutcome::Ran,
        spec_step(v1, prog).0.in_pos == v1.in_pos,
    ensures
        spec_step(v2, prog).1 == StepOutcome::Ran,
        spec_step(v2, prog).0.in_pos == v2.in_pos,
        spec_same_but_input(spec_step(v1, prog).0, spec_step(v2, prog).0),
{
    let ins = prog[v1.pc as int];
    if v1.pc >= prog.len() {
    } else if ins.dst == TAG_JMP || ins.dst == TAG_CALL || ins.dst == TAG_RET {
    } else {
        assert(spec_reads_needed(ins) == 0);
        assert(ins.a != ADDR_INPUT && ins.b != ADDR_INPUT);
    }
}

/// The input-independence law behind CPU determinism: a run that consumes
/// no input bit (its input cursor comes back unmoved and it never starves)
/// reaches the same memory, output stream, program counter, call stack and
/// status under any other input stream. With the step relation itself a
/// function of the state, repeated execution of an input-free program from
/// the same loaded state is therefore identical in every observable.
pub proof fn lemma_run_no_input_deterministic(
    v1: CpuView,
    v2: CpuView,
    prog: Seq<Instr>,
    fuel: nat,
)
    requires
        cpu_wf(v1),
        cpu_wf(v2),
        spec_same_but_input(v1, v2),
        spec_run(v1, prog, fuel).0.in_pos == v1.in_pos,
        spec_run(v1, prog, fuel).1 != RunStatus::InputExhausted,
    ensures
        spec_same_but_input(spec_run(v1, prog, fuel).0, spec_run(v2, prog, fuel).0),
        spec_run(v2, prog, fuel).1 == spec_run(v1, prog, fuel).1,
    decreases fuel,
{
    if v1.pc >= prog.len() || fuel == 0 {
    } else {
        let so1 = spec_step(v1, prog);
        let so2 = spec_step(v2, prog);
        match so1.1 {
            StepOutcome::Ran => {
                lemma_step_in_pos_monotone(v1, prog);
                lemma_run_in_pos_monotone(so1.0, prog, (fuel - 1) as nat);
                assert(so1.0.in_pos == v1.in_pos);
                lemma_step_no_input(v1, v2, prog);
                lemma_step_wf(v1, prog);
                lemma_step_wf(v2, prog);
                lemma_run_no_input_deterministic(so1.0, so2.0, prog, (fuel - 1) as nat);
            },
            StepOutcome::Halted => {},
            StepOutcome::StackUnderflow => {},
            StepOutcome::InputExhausted => {},
        }
    }
}

/// Termination is implicit: a run reports a halt exactly when the program
/// counter has left the program.
pub proof fn lemma_halt_is_pc_off_end(v: CpuView, prog: Seq<Instr>, fuel: nat)
    ensures
        spec_run(v, prog, fuel).1 == RunStatus::Halted <==> spec_run(v, prog, fuel).0.pc
            >= prog.len(),
    decreases fuel,
{
    if v.pc >= prog.len() || fuel == 0 {
    } else {
        let so = spec_step(v, prog);
        if so.1 == StepOutcome::Ran {
            lemma_halt_is_pc_off_end(so.0, prog, (fuel - 1) as nat);
        }
    }
}

/// A program none of whose words names the input port as a source performs
/// no input reads: any run leaves the input cursor where it stood and never
/// starves, so [`lemma_run_no_input_deterministic`] applies to it directly.
pub proof fn lemma_input_free_program_reads_nothing(v: CpuView, prog: Seq<Instr>, fuel: nat)
    requires
        cpu_wf(v),
        forall|j: int|
            0 <= j < prog.len() ==> (#[trigger] prog[j]).a != ADDR_INPUT && prog[j].b
                != ADDR_INPUT,
    ensures
        spec_run(v, prog, fuel).0.in_pos == v.in_pos,
        spec_run(v, prog, fuel).1 != RunStatus::InputExhausted,
    decreases fuel,
{
    if v.pc >= prog.len() || fuel == 0 {
    } else {
        let so = spec_step(v, prog);
        assert(spec_reads_needed(prog[v.pc as int]) == 0);
        lemma_step_wf(v, prog);
        if so.1 == StepOutcome::Ran {
            lemma_input_free_program_reads_nothing(so.0, prog, (fuel - 1) as nat);
        }
    }
}

/// The endless-loop law: a program of the single word `jmp 0` never halts.
/// From program-counter zero every cycle jumps back to slot zero without
/// touching memory, input or output, so any step budget is spent and the
/// state comes back unchanged.
pub proof fn lemma_jmp_self_never_halts(v: CpuView, prog: Seq<Instr>, fuel: nat)
    requires
        prog.len() == 1,
        prog[0] == (Instr { dst: TAG_JMP, a: 0, b: 0 }),
        v.pc == 0,
    ensures
        spec_run(v, prog, fuel) == (v, RunStatus::OutOfSteps),
    decreases fuel,
{
    if fuel == 0 {
    } else {
        let so = spec_step(v, prog);
        assert(spec_target(prog[0]) == 0);
        assert(so.0 == v);
        lemma_jmp_self_never_halts(v, prog, (fuel - 1) as nat);
    }
}

} // verus!
