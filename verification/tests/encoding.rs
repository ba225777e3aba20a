use vm16::cpu::CPU;
use vm16::instructions::{decode_instruction, Instruction};

fn roundtrip(i: Instruction) {
    let cpu = CPU::new();
    let w = cpu.encode_instruction(&i);
    assert_eq!(decode_instruction(w), i);
}

#[test]
fn roundtrip_every_mnemonic_zero_operands() {
    roundtrip(Instruction::ADD(0, 0));
    roundtrip(Instruction::MOV(0, 0));
    roundtrip(Instruction::MUL(0, 0));
    roundtrip(Instruction::SUB(0, 0));
    roundtrip(Instruction::SWAP(0, 0));
    roundtrip(Instruction::DIV(0, 0));
    roundtrip(Instruction::CLR(0));
    roundtrip(Instruction::INC(0));
    roundtrip(Instruction::DEC(0));
    roundtrip(Instruction::PRINT(0));
    roundtrip(Instruction::POW(0, 0));
    roundtrip(Instruction::MOVR(0, 0));
    roundtrip(Instruction::CMP(0, 0));
    roundtrip(Instruction::JMP(0));
    roundtrip(Instruction::HALT);
    roundtrip(Instruction::NOP);
}

#[test]
fn roundtrip_every_mnemonic_max_operands() {
    roundtrip(Instruction::ADD(15, 15));
    roundtrip(Instruction::MOV(15, 255));
    roundtrip(Instruction::MUL(15, 15));
    roundtrip(Instruction::SUB(15, 15));
    roundtrip(Instruction::SWAP(15, 15));
    roundtrip(Instruction::DIV(15, 15));
    roundtrip(Instruction::CLR(15));
    roundtrip(Instruction::INC(15));
    roundtrip(Instruction::DEC(15));
    roundtrip(Instruction::PRINT(15));
    roundtrip(Instruction::POW(15, 255));
    roundtrip(Instruction::MOVR(15, 15));
    roundtrip(Instruction::CMP(15, 15));
    roundtrip(Instruction::JMP(15));
}

#[test]
fn roundtrip_mixed_operands() {
    roundtrip(Instruction::ADD(3, 12));
    roundtrip(Instruction::MOV(7, 200));
    roundtrip(Instruction::POW(1, 129));
    roundtrip(Instruction::JMP(9));
}

#[test]
fn encode_matches_bit_layout() {
    let cpu = CPU::new();
    assert_eq!(cpu.encode_instruction(&Instruction::HALT), 0x0000);
    assert_eq!(cpu.encode_instruction(&Instruction::ADD(1, 2)), 0x1120);
    assert_eq!(cpu.encode_instruction(&Instruction::MOV(3, 200)), 0x23C8);
    assert_eq!(cpu.encode_instruction(&Instruction::MUL(4, 5)), 0x3450);
    assert_eq!(cpu.encode_instruction(&Instruction::SUB(6, 7)), 0x4670);
    assert_eq!(cpu.encode_instruction(&Instruction::SWAP(8, 9)), 0x5890);
    assert_eq!(cpu.encode_instruction(&Instruction::DIV(10, 11)), 0x6AB0);
    assert_eq!(cpu.encode_instruction(&Instruction::CLR(12)), 0x70C0);
    assert_eq!(cpu.encode_instruction(&Instruction::INC(13)), 0x80D0);
    assert_eq!(cpu.encode_instruction(&Instruction::DEC(14)), 0x90E0);
    assert_eq!(cpu.encode_instruction(&Instruction::PRINT(15)), 0xA0F0);
    assert_eq!(cpu.encode_instruction(&Instruction::POW(2, 0xFF)), 0xB2FF);
    assert_eq!(cpu.encode_instruction(&Instruction::MOVR(1, 0)), 0xC100);
    assert_eq!(cpu.encode_instruction(&Instruction::CMP(2, 3)), 0xD230);
    assert_eq!(cpu.encode_instruction(&Instruction::JMP(5)), 0xE500);
}

#[test]
fn encode_truncates_out_of_range_operands() {
    let cpu = CPU::new();
    // Register 17 masks to 1, immediate 300 masks to 44.
    assert_eq!(
        cpu.encode_instruction(&Instruction::ADD(17, 300)),
        cpu.encode_instruction(&Instruction::ADD(1, 12))
    );
    assert_eq!(
        cpu.encode_instruction(&Instruction::MOV(16, 256)),
        cpu.encode_instruction(&Instruction::MOV(0, 0))
    );
}
