use vm16::cpu::CPU;
use vm16::instructions::{Instruction, MEMORY_SIZE};
use vm16::parser::parse_file;

#[test]
fn image_round_trip_is_bit_identical() {
    let program = parse_file("MOV 0,5\nMOV 1,3\nADD 0,1\nSUB 0,1\nHALT").unwrap();
    let mut cpu = CPU::new();
    cpu.load_program(&program);

    let image = cpu.memory_image();
    let mut fresh = CPU::new();
    fresh.load_image(&image);

    assert_eq!(cpu.memory, fresh.memory);
    assert_eq!(fresh.pc, 0);

    let r1 = cpu.run();
    let r2 = fresh.run();
    assert!(r1.is_ok() && r2.is_ok());
    assert_eq!(cpu.registers, fresh.registers);
}

#[test]
fn image_is_big_endian_words() {
    let mut cpu = CPU::new();
    cpu.memory[0] = 0x1234;
    cpu.memory[1] = 0x00AB;
    let image = cpu.memory_image();
    assert_eq!(image, vec![0x12, 0x34, 0x00, 0xAB]);
}

#[test]
fn image_keeps_intermediate_zero_words() {
    // A zero word (an encoded HALT) between two non-zero words must stay,
    // or every later address would shift.
    let mut cpu = CPU::new();
    cpu.memory[0] = 0x1120;
    cpu.memory[1] = 0x0000;
    cpu.memory[2] = 0x23C8;
    let image = cpu.memory_image();
    assert_eq!(image, vec![0x11, 0x20, 0x00, 0x00, 0x23, 0xC8]);
}

#[test]
fn image_of_empty_memory_is_empty() {
    let cpu = CPU::new();
    assert_eq!(cpu.memory_image(), Vec::<u8>::new());
}

#[test]
fn load_image_ignores_trailing_odd_byte() {
    let mut cpu = CPU::new();
    cpu.load_image(&[0x12, 0x34, 0xFF]);
    assert_eq!(cpu.memory[0], 0x1234);
    assert_eq!(cpu.memory[1], 0);
}

#[test]
fn load_image_truncates_past_capacity() {
    let mut cpu = CPU::new();
    let too_long = vec![0x11u8; 2 * MEMORY_SIZE + 10];
    cpu.load_image(&too_long);
    assert_eq!(cpu.memory.len(), MEMORY_SIZE);
    assert!(cpu.memory.iter().all(|&w| w == 0x1111));
}

#[test]
fn load_image_resets_the_program_counter() {
    let mut cpu = CPU::new();
    cpu.pc = 42;
    cpu.load_image(&[0x00, 0x01]);
    assert_eq!(cpu.pc, 0);
    assert_eq!(cpu.memory[0], 1);
}

#[test]
fn assembled_program_survives_persistence_and_runs_identically() {
    let program = parse_file("MOV 0,2\nPOW 0,10\nMOV 1,7\nMUL 0,1\nHALT").unwrap();
    let mut cpu = CPU::new();
    cpu.load_program(&program);
    let image = cpu.memory_image();

    let mut fresh = CPU::new();
    fresh.load_image(&image);
    assert_eq!(cpu.memory, fresh.memory);

    assert!(fresh.run().is_ok());
    assert_eq!(fresh.registers[0], 1024 * 7);
    assert_eq!(fresh.registers[1], 7);
}
