use vm16::cpu::{ExecError, CPU};
use vm16::instructions::{Instruction, MEMORY_SIZE};

fn run_program(program: &[Instruction]) -> (CPU, Result<Vec<u16>, ExecError>) {
    let mut cpu = CPU::new();
    cpu.load_program(program);
    let r = cpu.run();
    (cpu, r)
}

#[test]
fn mov_then_print_yields_value() {
    let (cpu, r) = run_program(&[
        Instruction::MOV(2, 200),
        Instruction::PRINT(2),
        Instruction::HALT,
    ]);
    assert_eq!(cpu.registers[2], 200);
    assert_eq!(r.unwrap(), vec![200]);
}

#[test]
fn movr_copies_and_leaves_source_unchanged() {
    let (cpu, r) = run_program(&[
        Instruction::MOV(1, 5),
        Instruction::MOVR(3, 1),
        Instruction::HALT,
    ]);
    assert!(r.is_ok());
    assert_eq!(cpu.registers[3], 5);
    assert_eq!(cpu.registers[1], 5);
}

#[test]
fn sub_underflow_is_fatal() {
    let (_, r) = run_program(&[
        Instruction::MOV(0, 1),
        Instruction::MOV(1, 2),
        Instruction::SUB(0, 1),
        Instruction::HALT,
    ]);
    assert_eq!(r, Err(ExecError::SubUnderflow));
}

#[test]
fn sub_in_range_is_exact() {
    let (cpu, r) = run_program(&[
        Instruction::MOV(0, 9),
        Instruction::MOV(1, 3),
        Instruction::SUB(0, 1),
        Instruction::HALT,
    ]);
    assert!(r.is_ok());
    assert_eq!(cpu.registers[0], 6);
}

#[test]
fn dec_underflow_is_fatal() {
    let (_, r) = run_program(&[Instruction::DEC(4), Instruction::HALT]);
    assert_eq!(r, Err(ExecError::DecUnderflow));
}

#[test]
fn exec_error_names_the_mnemonic() {
    assert_eq!(ExecError::SubUnderflow.mnemonic(), "SUB");
    assert_eq!(ExecError::DecUnderflow.mnemonic(), "DEC");
}

#[test]
fn div_by_zero_halts_engine_without_fatal_error() {
    let (cpu, r) = run_program(&[
        Instruction::MOV(0, 8),
        Instruction::DIV(0, 1),
        Instruction::MOV(2, 99),
        Instruction::HALT,
    ]);
    // Engine-recoverable: run returns normally, registers keep their
    // pre-instruction values, and the instruction after the fault never ran.
    assert!(r.is_ok());
    assert_eq!(cpu.registers[0], 8);
    assert_eq!(cpu.registers[2], 0);
    assert!(!cpu.running);
}

#[test]
fn div_computes_quotient() {
    let (cpu, r) = run_program(&[
        Instruction::MOV(0, 17),
        Instruction::MOV(1, 5),
        Instruction::DIV(0, 1),
        Instruction::HALT,
    ]);
    assert!(r.is_ok());
    assert_eq!(cpu.registers[0], 3);
}

#[test]
fn add_mul_wrap_at_16_bits() {
    let mut cpu = CPU::new();
    cpu.registers[0] = 0xFFFF;
    cpu.registers[1] = 2;
    let w = cpu.encode_instruction(&Instruction::ADD(0, 1));
    assert!(cpu.execute_instruction(w).is_ok());
    assert_eq!(cpu.registers[0], 1);

    cpu.registers[0] = 0x8000;
    let w = cpu.encode_instruction(&Instruction::MUL(0, 1));
    assert!(cpu.execute_instruction(w).is_ok());
    assert_eq!(cpu.registers[0], 0);
}

#[test]
fn pow_raises_and_wraps() {
    let (cpu, _) = run_program(&[
        Instruction::MOV(0, 3),
        Instruction::POW(0, 4),
        Instruction::MOV(1, 2),
        Instruction::POW(1, 16),
        Instruction::HALT,
    ]);
    assert_eq!(cpu.registers[0], 81);
    // 2^16 wraps to 0 in the 16-bit register.
    assert_eq!(cpu.registers[1], 0);
}

#[test]
fn pow_zero_exponent_gives_one() {
    let (cpu, _) = run_program(&[
        Instruction::MOV(0, 7),
        Instruction::POW(0, 0),
        Instruction::HALT,
    ]);
    assert_eq!(cpu.registers[0], 1);
}

#[test]
fn swap_clr_inc_dec() {
    let (cpu, _) = run_program(&[
        Instruction::MOV(0, 4),
        Instruction::MOV(1, 9),
        Instruction::SWAP(0, 1),
        Instruction::CLR(2),
        Instruction::INC(3),
        Instruction::INC(3),
        Instruction::MOV(4, 5),
        Instruction::DEC(4),
        Instruction::HALT,
    ]);
    assert_eq!(cpu.registers[0], 9);
    assert_eq!(cpu.registers[1], 4);
    assert_eq!(cpu.registers[2], 0);
    assert_eq!(cpu.registers[3], 2);
    assert_eq!(cpu.registers[4], 4);
}

#[test]
fn cmp_sets_condition_flag() {
    let (cpu, _) = run_program(&[
        Instruction::MOV(0, 3),
        Instruction::MOV(1, 3),
        Instruction::CMP(0, 1),
        Instruction::HALT,
    ]);
    assert!(cpu.zflag);
    let (cpu, _) = run_program(&[
        Instruction::MOV(0, 3),
        Instruction::MOV(1, 4),
        Instruction::CMP(0, 1),
        Instruction::HALT,
    ]);
    assert!(!cpu.zflag);
}

#[test]
fn jmp_moves_the_program_counter() {
    // Address 0 jumps over the MOV at address 1 straight to the HALT.
    let (cpu, r) = run_program(&[
        Instruction::JMP(2),
        Instruction::MOV(0, 5),
        Instruction::HALT,
    ]);
    assert!(r.is_ok());
    assert_eq!(cpu.registers[0], 0);
}

#[test]
fn nop_changes_nothing() {
    let (cpu, r) = run_program(&[
        Instruction::MOV(0, 5),
        Instruction::NOP,
        Instruction::HALT,
    ]);
    assert!(r.is_ok());
    assert_eq!(cpu.registers[0], 5);
}

#[test]
fn fresh_memory_halts_at_once() {
    let mut cpu = CPU::new();
    let r = cpu.run();
    assert_eq!(r.unwrap(), Vec::<u16>::new());
    assert!(!cpu.running);
    assert_eq!(cpu.pc, 1);
}

#[test]
fn running_off_memory_is_a_natural_end() {
    // A program of nothing but NOPs runs to the end of memory and halts.
    let mut cpu = CPU::new();
    let nops = vec![Instruction::NOP; MEMORY_SIZE];
    cpu.load_program(&nops);
    let r = cpu.run();
    assert!(r.is_ok());
    assert!(!cpu.running);
    assert_eq!(cpu.pc as usize, MEMORY_SIZE);
}

#[test]
fn get_register_bounds() {
    let mut cpu = CPU::new();
    cpu.registers[7] = 42;
    assert_eq!(cpu.get_register(7), Some(42));
    assert_eq!(cpu.get_register(15), Some(0));
    assert_eq!(cpu.get_register(16), None);
    assert_eq!(cpu.get_register(1000), None);
}

#[test]
fn fetch_walks_memory_in_order() {
    let mut cpu = CPU::new();
    cpu.memory[0] = 0x1234;
    cpu.memory[1] = 0xABCD;
    assert_eq!(cpu.fetch_instruction(), Some(0x1234));
    assert_eq!(cpu.fetch_instruction(), Some(0xABCD));
    assert_eq!(cpu.pc, 2);
    cpu.pc = MEMORY_SIZE as u16;
    assert_eq!(cpu.fetch_instruction(), None);
}

#[test]
fn load_program_truncates_at_capacity() {
    let mut cpu = CPU::new();
    let big = vec![Instruction::INC(1); MEMORY_SIZE + 10];
    cpu.load_program(&big);
    let inc = cpu.encode_instruction(&Instruction::INC(1));
    assert!(cpu.memory.iter().all(|&w| w == inc));
}

#[test]
fn run_steps_stops_at_the_bound() {
    let mut cpu = CPU::new();
    cpu.load_program(&[
        Instruction::INC(0),
        Instruction::INC(0),
        Instruction::INC(0),
        Instruction::HALT,
    ]);
    let r = cpu.run_steps(2);
    assert!(r.is_ok());
    assert_eq!(cpu.registers[0], 2);
    assert!(cpu.running);
}
