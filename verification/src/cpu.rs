use vstd::prelude::*;

use crate::instructions::{
    Instruction, MEMORY_SIZE, ADD_OPCODE, MOV_OPCODE, MUL_OPCODE, SUB_OPCODE, SWAP_OPCODE,
    DIV_OPCODE, CLR_OPCODE, INC_OPCODE, DEC_OPCODE, PRINT_OPCODE, POW_OPCODE, MOVR_OPCODE,
    CMP_OPCODE, JMP_OPCODE, HALT_OPCODE, NOP_OPCODE, spec_encode, opcode_of, field_a, field_b,
    imm_of,
};

verus! {

/// Mathematical model of the processor: register file, memory image,
/// program counter, run flag and the condition ("equal") flag.
pub ghost struct CpuState {
    pub regs: Seq<u16>,
    pub mem: Seq<u16>,
    pub pc: u16,
    pub running: bool,
    pub zflag: bool,
}

impl CpuState {
    pub open spec fn wf(self) -> bool {
        &&& self.regs.len() == 16
        &&& self.mem.len() == MEMORY_SIZE
    }
}

/// A process-fatal arithmetic fault: the named instruction would have
/// produced a negative register value.
#[derive(Debug, Clone, Copy, PartialEq, Eq, Structural)]
pub enum ExecError {
    SubUnderflow,
    DecUnderflow,
}

impl ExecError {
    /// The mnemonic of the instruction that raised the fault.
    pub fn mnemonic(&self) -> (m: &'static str)
        ensures
            *self == ExecError::SubUnderflow ==> m@ == "SUB"@,
            *self == ExecError::DecUnderflow ==> m@ == "DEC"@,
    {
        match self {
            ExecError::SubUnderflow => "SUB",
            ExecError::DecUnderflow => "DEC",
        }
    }
}

/// Reduction of an integer to the 16-bit register width.
pub open spec fn wrap16(n: int) -> u16 {
    (n % 0x10000) as u16
}

/// Exponentiation over the native 16-bit width: each multiplication wraps.
pub open spec fn pow_wrap(base: u16, e: nat) -> u16
    decreases e,
{
    if e == 0 {
        1u16
    } else {
        wrap16(base * pow_wrap(base, (e - 1) as nat))
    }
}

/// What executing one decoded word does to the processor: the successor
/// state, the value a PRINT emits, and the fatal fault, if any. On a fault
/// the state is left untouched. Dividing by zero clears the run flag and is
/// not a fault. The program counter changes only through JMP, whose target
/// is the 4-bit field A of the word.
pub open spec fn spec_step(s: CpuState, w: u16) -> (CpuState, Option<u16>, Option<ExecError>) {
    let op = opcode_of(w);
    let a = field_a(w) as int;
    let b = field_b(w) as int;
    let v = imm_of(w);
    if op == ADD_OPCODE {
        (CpuState { regs: s.regs.update(a, wrap16(s.regs[a] + s.regs[b])), ..s }, None, None)
    } else if op == MOV_OPCODE {
        (CpuState { regs: s.regs.update(a, v), ..s }, None, None)
    } else if op == MUL_OPCODE {
        (CpuState { regs: s.regs.update(a, wrap16(s.regs[a] * s.regs[b])), ..s }, None, None)
    } else if op == SUB_OPCODE {
        if s.regs[a] >= s.regs[b] {
            (CpuState { regs: s.regs.update(a, (s.regs[a] - s.regs[b]) as u16), ..s }, None, None)
        } else {
            (s, None, Some(ExecError::SubUnderflow))
        }
    } else if op == SWAP_OPCODE {
        (CpuState { regs: s.regs.update(a, s.regs[b]).update(b, s.regs[a]), ..s }, None, None)
    } else if op == DIV_OPCODE {
        if s.regs[b] != 0 {
            (CpuState { regs: s.regs.update(a, s.regs[a] / s.regs[b]), ..s }, None, None)
        } else {
            (CpuState { running: false, ..s }, None, None)
        }
    } else if op == CLR_OPCODE {
        (CpuState { regs: s.regs.update(b, 0u16), ..s }, None, None)
    } else if op == INC_OPCODE {
        (CpuState { regs: s.regs.update(b, wrap16(s.regs[b] + 1)), ..s }, None, None)
    } else if op == DEC_OPCODE {
        if s.regs[b] >= 1 {
            (CpuState { regs: s.regs.update(b, (s.regs[b] - 1) as u16), ..s }, None, None)
        } else {
            (s, None, Some(ExecError::DecUnderflow))
        }
    } else if op == PRINT_OPCODE {
        (s, Some(s.regs[b]), None)
    } else if op == POW_OPCODE {
        (CpuState { regs: s.regs.update(a, pow_wrap(s.regs[a], v as nat)), ..s }, None, None)
    } else if op == MOVR_OPCODE {
        (CpuState { regs: s.regs.update(a, s.regs[b]), ..s }, None, None)
    } else if op == CMP_OPCODE {
        (CpuState { zflag: s.regs[a] == s.regs[b], ..s }, None, None)
    } else if op == JMP_OPCODE {
        (CpuState { pc: field_a(w), ..s }, None, None)
    } else if op == HALT_OPCODE {
        (CpuState { running: false, ..s }, None, None)
    } else {
        (s, None, None)
    }
}

/// The processor: 16 general-purpose 16-bit registers, a fixed-capacity
/// word memory, a word-addressed program counter, a run flag and the
/// condition flag set by CMP.
pub struct CPU {
    pub registers: Vec<u16>,
    pub memory: Vec<u16>,
    pub pc: u16,
    pub running: bool,
    pub zflag: bool,
}

impl View for CPU {
    type V = CpuState;

    open spec fn view(&self) -> CpuState {
        CpuState {
            regs: self.registers@,
            mem: self.memory@,
            pc: self.pc,
            running: self.running,
            zflag: self.zflag,
        }
    }
}

fn zero_vec(n: usize) -> (v: Vec<u16>)
    ensures
        v@.len() == n,
        forall|i: int| 0 <= i < n ==> v@[i] == 0u16,
{
    let mut v: Vec<u16> = Vec::new();
    let mut k: usize = 0;
    while k < n
        invariant
            k <= n,
            v@.len() == k,
            forall|i: int| 0 <= i < k ==> v@[i] == 0u16,
        decreases n - k,
    {
        v.push(0u16);
        k = k + 1;
    }
    v
}

impl CPU {
    pub open spec fn wf(&self) -> bool {
        self@.wf()
    }

    /// A fresh processor: every register and memory word zero, the program
    /// counter at the start, halted, condition flag clear.
    pub fn new() -> (cpu: CPU)
        ensures
            cpu.wf(),
            forall|i: int| 0 <= i < 16 ==> cpu@.regs[i] == 0u16,
            forall|i: int| 0 <= i < MEMORY_SIZE ==> cpu@.mem[i] == 0u16,
            cpu@.pc == 0u16,
            cpu@.running == false,
            cpu@.zflag == false,
    {
        CPU {
            registers: zero_vec(16),
            memory: zero_vec(MEMORY_SIZE),
            pc: 0,
            running: false,
            zflag: false,
        }
    }

    /// The 16-bit word encoding an instruction: opcode in the top nibble,
    /// destination in field A, source or immediate in the low byte.
    /// Total: out-of-range operands are truncated into their field.
    pub fn encode_instruction(&self, instruction: &Instruction) -> (w: u16)
        ensures
            w == spec_encode(*instruction),
    {
        match *instruction {
            Instruction::ADD(d, s) => ADD_OPCODE * 0x1000 + (d % 16) * 0x100 + (s % 16) * 0x10,
            Instruction::MOV(d, v) => MOV_OPCODE * 0x1000 + (d % 16) * 0x100 + v % 256,
            Instruction::MUL(d, s) => MUL_OPCODE * 0x1000 + (d % 16) * 0x100 + (s % 16) * 0x10,
            Instruction::SUB(d, s) => SUB_OPCODE * 0x1000 + (d % 16) * 0x100 + (s % 16) * 0x10,
            Instruction::SWAP(d, s) => SWAP_OPCODE * 0x1000 + (d % 16) * 0x100 + (s % 16) * 0x10,
            Instruction::DIV(d, s) => DIV_OPCODE * 0x1000 + (d % 16) * 0x100 + (s % 16) * 0x10,
            Instruction::CLR(r) => CLR_OPCODE * 0x1000 + (r % 16) * 0x10,
            Instruction::INC(r) => INC_OPCODE * 0x1000 + (r % 16) * 0x10,
            Instruction::DEC(r) => DEC_OPCODE * 0x1000 + (r % 16) * 0x10,
            Instruction::PRINT(r) => PRINT_OPCODE * 0x1000 + (r % 16) * 0x10,
            Instruction::POW(d, v) => POW_OPCODE * 0x1000 + (d % 16) * 0x100 + v % 256,
            Instruction::MOVR(d, s) => MOVR_OPCODE * 0x1000 + (d % 16) * 0x100 + (s % 16) * 0x10,
            Instruction::CMP(d, s) => CMP_OPCODE * 0x1000 + (d % 16) * 0x100 + (s % 16) * 0x10,
            Instruction::JMP(t) => JMP_OPCODE * 0x1000 + (t % 16) * 0x100,
            Instruction::HALT => HALT_OPCODE * 0x1000,
            Instruction::NOP => NOP_OPCODE * 0x1000,
        }
    }

    /// Reads the word at the program counter and advances the counter.
    /// A counter at or past the memory capacity yields nothing and leaves
    /// the processor untouched.
    pub fn fetch_instruction(&mut self) -> (r: Option<u16>)
        requires
            old(self).wf(),
        ensures
            final(self).wf(),
            old(self)@.pc < MEMORY_SIZE ==> r == Some(old(self)@.mem[old(self)@.pc as int])
                && final(self)@ == (CpuState { pc: (old(self)@.pc + 1) as u16, ..old(self)@ }),
            old(self)@.pc >= MEMORY_SIZE ==> r is None && final(self)@ == old(self)@,
    {
        if (self.pc as usize) < MEMORY_SIZE {
            let instruction = self.memory[self.pc as usize];
            self.pc = self.pc + 1;
            Some(instruction)
        } else {
            None
        }
    }

    /// The value of the register at `index`; nothing for an out-of-range
    /// index.
    pub fn get_register(&self, index: u16) -> (r: Option<u16>)
        requires
            self.wf(),
        ensures
            index < 16 ==> r == Some(self@.regs[index as int]),
            index >= 16 ==> r is None,
    {
        if (index as usize) < self.registers.len() {
            Some(self.registers[index as usize])
        } else {
            None
        }
    }

    /// Executes one encoded word against the current state, as `spec_step`
    /// says: `Ok(Some(v))` is the value a PRINT emits, and an `Err` is a
    /// process-fatal underflow, with the state left untouched.
    pub fn execute_instruction(&mut self, instruction: u16) -> (r: Result<Option<u16>, ExecError>)
        requires
            old(self).wf(),
        ensures
            final(self).wf(),
            final(self)@ == spec_step(old(self)@, instruction).0,
            match r {
                Ok(p) => spec_step(old(self)@, instruction).2 is None && p == spec_step(
                    old(self)@,
                    instruction,
                ).1,
                Err(e) => spec_step(old(self)@, instruction).2 == Some(e),
            },
    {
        let op = instruction / 0x1000;
        let a = ((instruction / 0x100) % 16) as usize;
        let b = ((instruction / 0x10) % 16) as usize;
        let v = instruction % 256;

        if op == ADD_OPCODE {
            let sum = self.registers[a] as u32 + self.registers[b] as u32;
            self.registers[a] = (sum % 0x10000) as u16;
            Ok(None)
        } else if op == MOV_OPCODE {
            self.registers[a] = v;
            Ok(None)
        } else if op == MUL_OPCODE {
            let ra = self.registers[a] as u32;
            let rb = self.registers[b] as u32;
            proof {
                assert(ra * rb < 0x100000000) by (nonlinear_arith)
                    requires
                        ra < 0x10000,
                        rb < 0x10000,
                ;
            }
            let prod = ra * rb;
            self.registers[a] = (prod % 0x10000) as u16;
            Ok(None)
        } else if op == SUB_OPCODE {
            if self.registers[a] >= self.registers[b] {
                self.registers[a] = self.registers[a] - self.registers[b];
                Ok(None)
            } else {
                Err(ExecError::SubUnderflow)
            }
        } else if op == SWAP_OPCODE {
            let ra = self.registers[a];
            let rb = self.registers[b];
            self.registers[a] = rb;
            self.registers[b] = ra;
            Ok(None)
        } else if op == DIV_OPCODE {
            if self.registers[b] != 0 {
                self.registers[a] = self.registers[a] / self.registers[b];
            } else {
                self.running = false;
            }
            Ok(None)
        } else if op == CLR_OPCODE {
            self.registers[b] = 0;
            Ok(None)
        } else if op == INC_OPCODE {
            let bumped = self.registers[b] as u32 + 1;
            self.registers[b] = (bumped % 0x10000) as u16;
            Ok(None)
        } else if op == DEC_OPCODE {
            if self.registers[b] >= 1 {
                self.registers[b] = self.registers[b] - 1;
                Ok(None)
            } else {
                Err(ExecError::DecUnderflow)
            }
        } else if op == PRINT_OPCODE {
            Ok(Some(self.registers[b]))
        } else if op == POW_OPCODE {
            let base = self.registers[a];
            let mut acc: u16 = 1;
            let mut k: u16 = 0;
            while k < v
                invariant
                    k <= v,
                    acc == pow_wrap(base, k as nat),
                decreases v - k,
            {
                let wa = base as u32;
                let wb = acc as u32;
                proof {
                    assert(wa * wb < 0x100000000) by (nonlinear_arith)
                        requires
                            wa < 0x10000,
                            wb < 0x10000,
                    ;
                }
                let prod = wa * wb;
                acc = (prod % 0x10000) as u16;
                k = k + 1;
            }
            self.registers[a] = acc;
            Ok(None)
        } else if op == MOVR_OPCODE {
            self.registers[a] = self.registers[b];
            Ok(None)
        } else if op == CMP_OPCODE {
            self.zflag = self.registers[a] == self.registers[b];
            Ok(None)
        } else if op == JMP_OPCODE {
            self.pc = (instruction / 0x100) % 16;
            Ok(None)
        } else if op == HALT_OPCODE {
            self.running = false;
            Ok(None)
        } else {
            Ok(None)
        }
    }
}


/// The trace of running the engine from a state for at most `fuel`
/// fetch-decode-execute cycles: the state reached, the values PRINT emitted
/// in order, the fatal fault if one arose, and whether the machine came to
/// rest (`done`) or merely ran out of fuel.
pub ghost struct RunOutcome {
    pub state: CpuState,
    pub prints: Seq<u16>,
    pub err: Option<ExecError>,
    pub done: bool,
}

pub open spec fn opt_seq(p: Option<u16>) -> Seq<u16> {
    match p {
        Some(v) => seq![v],
        None => Seq::empty(),
    }
}

/// One cycle fetches the word at the program counter, advances the counter,
/// and executes; a counter past capacity clears the run flag (a natural end,
/// not an error), and a fatal fault stops everything where it stands.
pub open spec fn spec_run(s: CpuState, fuel: nat) -> RunOutcome
    decreases fuel,
{
    if !s.running {
        RunOutcome { state: s, prints: Seq::empty(), err: None, done: true }
    } else if fuel == 0 {
        RunOutcome { state: s, prints: Seq::empty(), err: None, done: false }
    } else if s.pc >= MEMORY_SIZE {
        RunOutcome {
            state: CpuState { running: false, ..s },
            prints: Seq::empty(),
            err: None,
            done: true,
        }
    } else {
        let w = s.mem[s.pc as int];
        let s1 = CpuState { pc: (s.pc + 1) as u16, ..s };
        let step = spec_step(s1, w);
        if step.2 is Some {
            RunOutcome { state: step.0, prints: Seq::empty(), err: step.2, done: true }
        } else {
            let rest = spec_run(step.0, (fuel - 1) as nat);
            RunOutcome {
                state: rest.state,
                prints: opt_seq(step.1) + rest.prints,
                err: rest.err,
                done: rest.done,
            }
        }
    }
}

/// The state `run` starts from: the given state with the run flag raised.
pub open spec fn started(s: CpuState) -> CpuState {
    CpuState { running: true, ..s }
}

impl CPU {
    /// Raises the run flag and executes fetch-decode-execute cycles until
    /// the machine halts, a fatal fault arises, or `max_steps` cycles have
    /// run: exactly the trace `spec_run` gives for that much fuel. On `Ok`
    /// the returned values are everything PRINT emitted, in order.
    #[verifier::rlimit(100)]
    pub fn run_steps(&mut self, max_steps: u64) -> (r: Result<Vec<u16>, ExecError>)
        requires
            old(self).wf(),
        ensures
            final(self).wf(),
            final(self)@ == spec_run(started(old(self)@), max_steps as nat).state,
            match r {
                Ok(p) => spec_run(started(old(self)@), max_steps as nat).err is None && p@
                    == spec_run(started(old(self)@), max_steps as nat).prints,
                Err(e) => spec_run(started(old(self)@), max_steps as nat).err == Some(e),
            },
    {
        self.running = true;
        let ghost start = self@;
        let ghost whole = spec_run(start, max_steps as nat);
        proof {
            assert(start == started(old(self)@));
        }
        let mut prints: Vec<u16> = Vec::new();
        let mut steps: u64 = 0;
        while self.running && steps < max_steps
            invariant
                self.wf(),
                steps <= max_steps,
                start == started(old(self)@),
                whole == spec_run(start, max_steps as nat),
                whole.state == spec_run(self@, (max_steps - steps) as nat).state,
                whole.err == spec_run(self@, (max_steps - steps) as nat).err,
                whole.done == spec_run(self@, (max_steps - steps) as nat).done,
                whole.prints == prints@ + spec_run(self@, (max_steps - steps) as nat).prints,
            decreases max_steps - steps,
        {
            let ghost pre = self@;
            let ghost rem = (max_steps - steps) as nat;
            if let Some(instruction) = self.fetch_instruction() {
                match self.execute_instruction(instruction) {
                    Ok(p) => {
                        proof {
                            let step = spec_step(
                                CpuState { pc: (pre.pc + 1) as u16, ..pre },
                                pre.mem[pre.pc as int],
                            );
                            let rest = spec_run(self@, (rem - 1) as nat);
                            assert(spec_run(pre, rem).prints == opt_seq(step.1) + rest.prints);
                            match p {
                                Some(v) => {
                                    assert(prints@ + (opt_seq(step.1) + rest.prints) =~= (prints@
                                        + opt_seq(step.1)) + rest.prints);
                                },
                                None => {
                                    assert(prints@ + (opt_seq(step.1) + rest.prints) =~= prints@
                                        + rest.prints);
                                },
                            }
                        }
                        if let Some(v) = p {
                            prints.push(v);
                        }
                    },
                    Err(e) => {
                        proof {
                            assert(spec_run(pre, rem).err == Some(e));
                            assert(spec_run(pre, rem).state == self@);
                        }
                        return Err(e);
                    },
                }
            } else {
                self.running = false;
                proof {
                    assert(spec_run(pre, rem).state == self@);
                    assert(spec_run(self@, (rem - 1) as nat).state == self@);
                    assert(prints@ + spec_run(self@, (rem - 1) as nat).prints =~= prints@
                        + spec_run(pre, rem).prints);
                }
            }
            steps = steps + 1;
        }
        proof {
            assert(prints@ + spec_run(self@, (max_steps - steps) as nat).prints =~= prints@);
        }
        Ok(prints)
    }

    /// Runs until the machine halts or a fatal fault arises. The step bound
    /// exists only to witness termination to the verifier; a program that
    /// neither halts nor runs off memory simply exhausts it.
    pub fn run(&mut self) -> (r: Result<Vec<u16>, ExecError>)
        requires
            old(self).wf(),
        ensures
            final(self).wf(),
            final(self)@ == spec_run(started(old(self)@), u64::MAX as nat).state,
            match r {
                Ok(p) => spec_run(started(old(self)@), u64::MAX as nat).err is None && p@
                    == spec_run(started(old(self)@), u64::MAX as nat).prints,
                Err(e) => spec_run(started(old(self)@), u64::MAX as nat).err == Some(e),
            },
    {
        self.run_steps(u64::MAX)
    }

    /// Encodes a program into memory from address 0, word for word; what
    /// does not fit below the capacity is dropped, and everything else is
    /// left as it was.
    pub fn load_program(&mut self, program: &[Instruction])
        requires
            old(self).wf(),
        ensures
            final(self).wf(),
            final(self)@.mem.len() == MEMORY_SIZE,
            forall|i: int|
                0 <= i < MEMORY_SIZE ==> final(self)@.mem[i] == (if i < program@.len() {
                    spec_encode(program@[i])
                } else {
                    old(self)@.mem[i]
                }),
            final(self)@.regs == old(self)@.regs,
            final(self)@.pc == old(self)@.pc,
            final(self)@.running == old(self)@.running,
            final(self)@.zflag == old(self)@.zflag,
    {
        let mut i: usize = 0;
        let n = if program.len() < MEMORY_SIZE {
            program.len()
        } else {
            MEMORY_SIZE
        };
        while i < n
            invariant
                old(self).wf(),
                self.wf(),
                n <= program@.len(),
                n <= MEMORY_SIZE,
                i <= n,
                n == if program@.len() < MEMORY_SIZE {
                    program@.len() as int
                } else {
                    MEMORY_SIZE as int
                },
                forall|j: int|
                    0 <= j < MEMORY_SIZE ==> self@.mem[j] == (if j < i {
                        spec_encode(program@[j])
                    } else {
                        old(self)@.mem[j]
                    }),
                self@.regs == old(self)@.regs,
                self@.pc == old(self)@.pc,
                self@.running == old(self)@.running,
                self@.zflag == old(self)@.zflag,
            decreases n - i,
        {
            let w = self.encode_instruction(&program[i]);
            self.memory[i] = w;
            i = i + 1;
        }
    }
}


/// A SUB word faults exactly when the destination register is smaller than
/// the source: then nothing changes and the fault names SUB; otherwise the
/// destination receives the exact difference.
pub proof fn lemma_sub_semantics(s: CpuState, w: u16)
    requires
        s.wf(),
        opcode_of(w) == SUB_OPCODE,
    ensures
        ({
            let d = field_a(w) as int;
            let r = field_b(w) as int;
            &&& s.regs[d] < s.regs[r] ==> spec_step(s, w) == (
                s,
                None::<u16>,
                Some(ExecError::SubUnderflow),
            )
            &&& s.regs[d] >= s.regs[r] ==> spec_step(s, w).2 is None && spec_step(s, w).0.regs[d]
                == s.regs[d] - s.regs[r] && (forall|i: int|
                0 <= i < 16 && i != d ==> spec_step(s, w).0.regs[i] == s.regs[i])
        }),
{
}

/// A DIV word with a zero source register clears the run flag and nothing
/// more: no fault is raised and every register keeps its value.
pub proof fn lemma_div_by_zero_halts(s: CpuState, w: u16)
    requires
        s.wf(),
        opcode_of(w) == DIV_OPCODE,
        s.regs[field_b(w) as int] == 0,
    ensures
        spec_step(s, w).0 == (CpuState { running: false, ..s }),
        spec_step(s, w).0.regs == s.regs,
        spec_step(s, w).1 is None,
        spec_step(s, w).2 is None,
{
}

/// A MOVR word copies the source register into the destination exactly and
/// touches no other register: in particular the source keeps its value
/// whenever it is not itself the destination.
pub proof fn lemma_movr_copies(s: CpuState, w: u16)
    requires
        s.wf(),
        opcode_of(w) == MOVR_OPCODE,
    ensures
        ({
            let d = field_a(w) as int;
            let r = field_b(w) as int;
            &&& spec_step(s, w).2 is None
            &&& spec_step(s, w).0.regs[d] == s.regs[r]
            &&& (forall|i: int| 0 <= i < 16 && i != d ==> spec_step(s, w).0.regs[i] == s.regs[i])
            &&& spec_step(s, w).0.pc == s.pc
            &&& spec_step(s, w).0.running == s.running
            &&& spec_step(s, w).0.zflag == s.zflag
        }),
{
}

/// Length of the persisted image: one past the highest address holding a
/// non-default (non-HALT, that is non-zero) word.
pub open spec fn image_len(mem: Seq<u16>) -> int
    decreases mem.len(),
{
    if mem.len() == 0 {
        0
    } else if mem.last() != 0 {
        mem.len() as int
    } else {
        image_len(mem.drop_last())
    }
}

/// The persisted byte image: the first `image_len` words, each as two
/// big-endian bytes, every intermediate word (zeros included) preserved.
pub open spec fn spec_image(mem: Seq<u16>) -> Seq<u8> {
    Seq::new(
        (2 * image_len(mem)) as nat,
        |k: int|
            if k % 2 == 0 {
                (mem[k / 2] / 256) as u8
            } else {
                (mem[k / 2] % 256) as u8
            },
    )
}

/// The word the byte pair at position `i` of an image spells, big-endian.
pub open spec fn word_at(bytes: Seq<u8>, i: int) -> u16 {
    (bytes[2 * i] * 256 + bytes[2 * i + 1]) as u16
}

/// Memory after reading an image over `mem0`: bytes grouped into big-endian
/// words fill the memory from address 0; words past the capacity are
/// dropped, and addresses the image does not reach keep their old content.
pub open spec fn spec_load(mem0: Seq<u16>, bytes: Seq<u8>) -> Seq<u16> {
    Seq::new(
        mem0.len(),
        |i: int|
            if i < bytes.len() / 2 {
                word_at(bytes, i)
            } else {
                mem0[i]
            },
    )
}

/// Everything at or past the image length is zero, and the length is within
/// bounds.
pub proof fn lemma_image_len_bounds(mem: Seq<u16>)
    ensures
        0 <= image_len(mem) <= mem.len(),
        forall|j: int| image_len(mem) <= j < mem.len() ==> mem[j] == 0,
    decreases mem.len(),
{
    if mem.len() > 0 && mem.last() == 0 {
        lemma_image_len_bounds(mem.drop_last());
        assert(forall|j: int|
            image_len(mem) <= j < mem.len() - 1 ==> mem[j] == mem.drop_last()[j] && mem[j] == 0);
    }
}

/// The image length is the unique cut: nothing but zeros after it, and a
/// non-zero word (if anything at all) right before it.
pub proof fn lemma_image_len_unique(mem: Seq<u16>, cut: int)
    requires
        0 <= cut <= mem.len(),
        cut > 0 ==> mem[cut - 1] != 0,
        forall|j: int| cut <= j < mem.len() ==> mem[j] == 0,
    ensures
        image_len(mem) == cut,
    decreases mem.len(),
{
    if mem.len() == 0 {
    } else if mem.last() != 0 {
        assert(cut == mem.len());
    } else {
        assert(cut < mem.len());
        lemma_image_len_unique(mem.drop_last(), cut);
    }
}

/// A full memory, emitted as an image and read back over a fresh all-zero
/// memory, comes back bit-identical: the dropped tail held only zeros, which
/// the fresh memory supplies again.
pub proof fn lemma_image_round_trip(mem: Seq<u16>, mem0: Seq<u16>)
    requires
        mem.len() == MEMORY_SIZE,
        mem0.len() == MEMORY_SIZE,
        forall|i: int| 0 <= i < MEMORY_SIZE ==> mem0[i] == 0u16,
    ensures
        spec_load(mem0, spec_image(mem)) == mem,
{
    lemma_image_len_bounds(mem);
    let bytes = spec_image(mem);
    let cut = image_len(mem);
    assert(bytes.len() == 2 * cut);
    assert(bytes.len() / 2 == cut);
    assert forall|i: int| 0 <= i < MEMORY_SIZE implies spec_load(mem0, bytes)[i] == mem[i] by {
        if i < cut {
            assert((2 * i) % 2 == 0 && (2 * i) / 2 == i);
            assert((2 * i + 1) % 2 == 1 && (2 * i + 1) / 2 == i);
            assert(bytes[2 * i] == (mem[i] / 256) as u8);
            assert(bytes[2 * i + 1] == (mem[i] % 256) as u8);
            assert(mem[i] / 256 * 256 + mem[i] % 256 == mem[i]);
        } else {
            assert(mem[i] == 0);
        }
    }
    assert(spec_load(mem0, bytes) =~= mem);
}

impl CPU {
    /// The memory serialized for persistence: a contiguous big-endian image
    /// of length one past the highest address holding a non-zero word,
    /// intermediate zero words preserved so no address shifts.
    pub fn memory_image(&self) -> (bytes: Vec<u8>)
        requires
            self.wf(),
        ensures
            bytes@ == spec_image(self@.mem),
    {
        let mut cut: usize = MEMORY_SIZE;
        while cut > 0 && self.memory[cut - 1] == 0
            invariant
                self.wf(),
                cut <= MEMORY_SIZE,
                forall|j: int| cut <= j < MEMORY_SIZE ==> self@.mem[j] == 0,
            decreases cut,
        {
            cut = cut - 1;
        }
        proof {
            lemma_image_len_unique(self@.mem, cut as int);
        }
        let mut bytes: Vec<u8> = Vec::new();
        let mut i: usize = 0;
        while i < cut
            invariant
                self.wf(),
                cut == image_len(self@.mem),
                cut <= MEMORY_SIZE,
                i <= cut,
                bytes@.len() == 2 * i,
                forall|k: int| 0 <= k < 2 * i ==> bytes@[k] == spec_image(self@.mem)[k],
            decreases cut - i,
        {
            let w = self.memory[i];
            bytes.push((w / 256) as u8);
            bytes.push((w % 256) as u8);
            proof {
                assert((2 * i as int) % 2 == 0 && (2 * i as int) / 2 == i as int);
                assert((2 * i as int + 1) % 2 == 1 && (2 * i as int + 1) / 2 == i as int);
            }
            i = i + 1;
        }
        proof {
            assert(bytes@ =~= spec_image(self@.mem));
        }
        bytes
    }

    /// Fills memory from an image: byte pairs become big-endian words from
    /// address 0 on, words past the capacity are dropped, a trailing odd
    /// byte is ignored, and the program counter is reset to the start.
    pub fn load_image(&mut self, bytes: &[u8])
        requires
            old(self).wf(),
        ensures
            final(self).wf(),
            final(self)@.mem == spec_load(old(self)@.mem, bytes@),
            final(self)@.pc == 0u16,
            final(self)@.regs == old(self)@.regs,
            final(self)@.running == old(self)@.running,
            final(self)@.zflag == old(self)@.zflag,
    {
        let total = bytes.len() / 2;
        let n = if total < MEMORY_SIZE {
            total
        } else {
            MEMORY_SIZE
        };
        let mut i: usize = 0;
        while i < n
            invariant
                old(self).wf(),
                self.wf(),
                n <= total,
                n <= MEMORY_SIZE,
                total == bytes@.len() / 2,
                n == if total < MEMORY_SIZE {
                    total as int
                } else {
                    MEMORY_SIZE as int
                },
                i <= n,
                forall|j: int|
                    0 <= j < MEMORY_SIZE ==> self@.mem[j] == (if j < i {
                        word_at(bytes@, j)
                    } else {
                        old(self)@.mem[j]
                    }),
                self@.regs == old(self)@.regs,
                self@.pc == old(self)@.pc,
                self@.running == old(self)@.running,
                self@.zflag == old(self)@.zflag,
            decreases n - i,
        {
            let hi = bytes[2 * i];
            let lo = bytes[2 * i + 1];
            let w = (hi as u16) * 256 + (lo as u16);
            self.memory[i] = w;
            i = i + 1;
        }
        self.pc = 0;
        proof {
            assert(self@.mem =~= spec_load(old(self)@.mem, bytes@));
        }
    }
}

} // verus!
