use vstd::prelude::*;

verus! {

/// Number of words the processor's memory holds.
pub const MEMORY_SIZE: usize = 255;

// Opcode constants: the 4-bit tag stored in bits 15..12 of an encoded word.
pub const HALT_OPCODE: u16 = 0x0;
pub const ADD_OPCODE: u16 = 0x1;
pub const MOV_OPCODE: u16 = 0x2;
pub const MUL_OPCODE: u16 = 0x3;
pub const SUB_OPCODE: u16 = 0x4;
pub const SWAP_OPCODE: u16 = 0x5;
pub const DIV_OPCODE: u16 = 0x6;
pub const CLR_OPCODE: u16 = 0x7;
pub const INC_OPCODE: u16 = 0x8;
pub const DEC_OPCODE: u16 = 0x9;
pub const PRINT_OPCODE: u16 = 0xa;
pub const POW_OPCODE: u16 = 0xb;
pub const MOVR_OPCODE: u16 = 0xc;
pub const CMP_OPCODE: u16 = 0xd;
pub const JMP_OPCODE: u16 = 0xe;
pub const NOP_OPCODE: u16 = 0xf;

/// One machine instruction. Register operands name one of the 16
/// general-purpose registers; immediate operands are 8-bit values.
/// Out-of-range operands are truncated by the encoder via masking.
#[derive(Debug, Clone, Copy, PartialEq, Eq, Structural)]
pub enum Instruction {
    ADD(u16, u16),
    MOV(u16, u16),
    MUL(u16, u16),
    SUB(u16, u16),
    SWAP(u16, u16),
    DIV(u16, u16),
    CLR(u16),
    INC(u16),
    DEC(u16),
    PRINT(u16),
    POW(u16, u16),
    MOVR(u16, u16),
    CMP(u16, u16),
    JMP(u16),
    HALT,
    NOP,
}

/// Operands lie within the widths their encoding fields can hold:
/// register indices and jump targets below 16, immediates below 256.
pub open spec fn wf_instruction(i: Instruction) -> bool {
    match i {
        Instruction::ADD(d, s) => d < 16 && s < 16,
        Instruction::MOV(d, v) => d < 16 && v < 256,
        Instruction::MUL(d, s) => d < 16 && s < 16,
        Instruction::SUB(d, s) => d < 16 && s < 16,
        Instruction::SWAP(d, s) => d < 16 && s < 16,
        Instruction::DIV(d, s) => d < 16 && s < 16,
        Instruction::CLR(r) => r < 16,
        Instruction::INC(r) => r < 16,
        Instruction::DEC(r) => r < 16,
        Instruction::PRINT(r) => r < 16,
        Instruction::POW(d, v) => d < 16 && v < 256,
        Instruction::MOVR(d, s) => d < 16 && s < 16,
        Instruction::CMP(d, s) => d < 16 && s < 16,
        Instruction::JMP(t) => t < 16,
        Instruction::HALT => true,
        Instruction::NOP => true,
    }
}

// A word is built arithmetically: opcode in the topmost nibble, field A in
// bits 11..8, and the low byte holding either field B (bits 7..4) or an
// 8-bit immediate. The sum stays below 0x10000, so the cast is exact.
pub open spec fn enc_rr(op: u16, d: u16, s: u16) -> u16 {
    (op * 0x1000 + (d % 16) * 0x100 + (s % 16) * 0x10) as u16
}

pub open spec fn enc_ri(op: u16, d: u16, v: u16) -> u16 {
    (op * 0x1000 + (d % 16) * 0x100 + v % 256) as u16
}

pub open spec fn enc_b(op: u16, r: u16) -> u16 {
    (op * 0x1000 + (r % 16) * 0x10) as u16
}

pub open spec fn enc_a(op: u16, t: u16) -> u16 {
    (op * 0x1000 + (t % 16) * 0x100) as u16
}

/// The 16-bit word an instruction encodes to.
pub open spec fn spec_encode(i: Instruction) -> u16 {
    match i {
        Instruction::ADD(d, s) => enc_rr(ADD_OPCODE, d, s),
        Instruction::MOV(d, v) => enc_ri(MOV_OPCODE, d, v),
        Instruction::MUL(d, s) => enc_rr(MUL_OPCODE, d, s),
        Instruction::SUB(d, s) => enc_rr(SUB_OPCODE, d, s),
        Instruction::SWAP(d, s) => enc_rr(SWAP_OPCODE, d, s),
        Instruction::DIV(d, s) => enc_rr(DIV_OPCODE, d, s),
        Instruction::CLR(r) => enc_b(CLR_OPCODE, r),
        Instruction::INC(r) => enc_b(INC_OPCODE, r),
        Instruction::DEC(r) => enc_b(DEC_OPCODE, r),
        Instruction::PRINT(r) => enc_b(PRINT_OPCODE, r),
        Instruction::POW(d, v) => enc_ri(POW_OPCODE, d, v),
        Instruction::MOVR(d, s) => enc_rr(MOVR_OPCODE, d, s),
        Instruction::CMP(d, s) => enc_rr(CMP_OPCODE, d, s),
        Instruction::JMP(t) => enc_a(JMP_OPCODE, t),
        Instruction::HALT => (HALT_OPCODE * 0x1000) as u16,
        Instruction::NOP => (NOP_OPCODE * 0x1000) as u16,
    }
}

// Field extraction from an encoded word.
pub open spec fn opcode_of(w: u16) -> u16 {
    w / 0x1000
}

pub open spec fn field_a(w: u16) -> u16 {
    (w / 0x100) % 16
}

pub open spec fn field_b(w: u16) -> u16 {
    (w / 0x10) % 16
}

pub open spec fn imm_of(w: u16) -> u16 {
    w % 256
}

/// The instruction a word decodes to. Total: every opcode nibble maps to
/// exactly one mnemonic of the table.
pub open spec fn spec_decode(w: u16) -> Instruction {
    let op = opcode_of(w);
    if op == ADD_OPCODE {
        Instruction::ADD(field_a(w), field_b(w))
    } else if op == MOV_OPCODE {
        Instruction::MOV(field_a(w), imm_of(w))
    } else if op == MUL_OPCODE {
        Instruction::MUL(field_a(w), field_b(w))
    } else if op == SUB_OPCODE {
        Instruction::SUB(field_a(w), field_b(w))
    } else if op == SWAP_OPCODE {
        Instruction::SWAP(field_a(w), field_b(w))
    } else if op == DIV_OPCODE {
        Instruction::DIV(field_a(w), field_b(w))
    } else if op == CLR_OPCODE {
        Instruction::CLR(field_b(w))
    } else if op == INC_OPCODE {
        Instruction::INC(field_b(w))
    } else if op == DEC_OPCODE {
        Instruction::DEC(field_b(w))
    } else if op == PRINT_OPCODE {
        Instruction::PRINT(field_b(w))
    } else if op == POW_OPCODE {
        Instruction::POW(field_a(w), imm_of(w))
    } else if op == MOVR_OPCODE {
        Instruction::MOVR(field_a(w), field_b(w))
    } else if op == CMP_OPCODE {
        Instruction::CMP(field_a(w), field_b(w))
    } else if op == JMP_OPCODE {
        Instruction::JMP(field_a(w))
    } else if op == HALT_OPCODE {
        Instruction::HALT
    } else {
        Instruction::NOP
    }
}

/// Decodes a word back into the structured instruction it encodes.
pub fn decode_instruction(w: u16) -> (i: Instruction)
    ensures
        i == spec_decode(w),
{
    let op = w / 0x1000;
    let a = (w / 0x100) % 16;
    let b = (w / 0x10) % 16;
    let v = w % 256;
    if op == ADD_OPCODE {
        Instruction::ADD(a, b)
    } else if op == MOV_OPCODE {
        Instruction::MOV(a, v)
    } else if op == MUL_OPCODE {
        Instruction::MUL(a, b)
    } else if op == SUB_OPCODE {
        Instruction::SUB(a, b)
    } else if op == SWAP_OPCODE {
        Instruction::SWAP(a, b)
    } else if op == DIV_OPCODE {
        Instruction::DIV(a, b)
    } else if op == CLR_OPCODE {
        Instruction::CLR(b)
    } else if op == INC_OPCODE {
        Instruction::INC(b)
    } else if op == DEC_OPCODE {
        Instruction::DEC(b)
    } else if op == PRINT_OPCODE {
        Instruction::PRINT(b)
    } else if op == POW_OPCODE {
        Instruction::POW(a, v)
    } else if op == MOVR_OPCODE {
        Instruction::MOVR(a, b)
    } else if op == CMP_OPCODE {
        Instruction::CMP(a, b)
    } else if op == JMP_OPCODE {
        Instruction::JMP(a)
    } else if op == HALT_OPCODE {
        Instruction::HALT
    } else {
        Instruction::NOP
    }
}

/// Field extraction inverts the arithmetic layout: a word assembled from an
/// opcode, a field-A nibble and a low byte gives each part back.
proof fn lemma_enc_fields(op: u16, a: u16, low: u16)
    requires
        op < 16,
        a < 16,
        low < 256,
    ensures
        opcode_of((op * 0x1000 + a * 0x100 + low) as u16) == op,
        field_a((op * 0x1000 + a * 0x100 + low) as u16) == a,
        field_b((op * 0x1000 + a * 0x100 + low) as u16) == low / 16,
        imm_of((op * 0x1000 + a * 0x100 + low) as u16) == low % 256,
{
    let w = (op * 0x1000 + a * 0x100 + low) as u16;
    assert(op * 0x1000 + a * 0x100 + low < 0x10000) by (nonlinear_arith)
        requires
            op < 16,
            a < 16,
            low < 256,
    ;
    assert(w == op * 0x1000 + a * 0x100 + low);
    assert(w / 0x1000 == op && (w / 0x100) % 16 == a && (w / 0x10) % 16 == low / 16 && w % 256
        == low % 256) by (nonlinear_arith)
        requires
            op < 16,
            a < 16,
            low < 256,
            w == op * 0x1000 + a * 0x100 + low,
    ;
}

/// A register-register word gives back its opcode and both register fields.
proof fn lemma_rt_rr(op: u16, d: u16, s: u16)
    requires
        op < 16,
        d < 16,
        s < 16,
    ensures
        opcode_of(enc_rr(op, d, s)) == op,
        field_a(enc_rr(op, d, s)) == d,
        field_b(enc_rr(op, d, s)) == s,
{
    lemma_enc_fields(op, d, (s * 16) as u16);
    assert((s * 16) / 16 == s) by (nonlinear_arith)
        requires
            s < 16,
    ;
}

/// A register-immediate word gives back its opcode, register and immediate.
proof fn lemma_rt_ri(op: u16, d: u16, v: u16)
    requires
        op < 16,
        d < 16,
        v < 256,
    ensures
        opcode_of(enc_ri(op, d, v)) == op,
        field_a(enc_ri(op, d, v)) == d,
        imm_of(enc_ri(op, d, v)) == v,
{
    lemma_enc_fields(op, d, v);
}

/// A single-register word (operand in field B) gives back its parts.
proof fn lemma_rt_b(op: u16, r: u16)
    requires
        op < 16,
        r < 16,
    ensures
        opcode_of(enc_b(op, r)) == op,
        field_b(enc_b(op, r)) == r,
{
    lemma_enc_fields(op, 0, (r * 16) as u16);
    assert((r * 16) / 16 == r) by (nonlinear_arith)
        requires
            r < 16,
    ;
}

/// A jump word (target in field A) gives back its parts.
proof fn lemma_rt_a(op: u16, t: u16)
    requires
        op < 16,
        t < 16,
    ensures
        opcode_of(enc_a(op, t)) == op,
        field_a(enc_a(op, t)) == t,
{
    lemma_enc_fields(op, t, 0);
}

/// Decoding inverts encoding: for every mnemonic of the opcode table, a word
/// built from in-range operands decodes back to the same instruction.
pub proof fn lemma_decode_encode(i: Instruction)
    requires
        wf_instruction(i),
    ensures
        spec_decode(spec_encode(i)) == i,
{
    match i {
        Instruction::ADD(d, s) => lemma_rt_rr(ADD_OPCODE, d, s),
        Instruction::MOV(d, v) => lemma_rt_ri(MOV_OPCODE, d, v),
        Instruction::MUL(d, s) => lemma_rt_rr(MUL_OPCODE, d, s),
        Instruction::SUB(d, s) => lemma_rt_rr(SUB_OPCODE, d, s),
        Instruction::SWAP(d, s) => lemma_rt_rr(SWAP_OPCODE, d, s),
        Instruction::DIV(d, s) => lemma_rt_rr(DIV_OPCODE, d, s),
        Instruction::CLR(r) => lemma_rt_b(CLR_OPCODE, r),
        Instruction::INC(r) => lemma_rt_b(INC_OPCODE, r),
        Instruction::DEC(r) => lemma_rt_b(DEC_OPCODE, r),
        Instruction::PRINT(r) => lemma_rt_b(PRINT_OPCODE, r),
        Instruction::POW(d, v) => lemma_rt_ri(POW_OPCODE, d, v),
        Instruction::MOVR(d, s) => lemma_rt_rr(MOVR_OPCODE, d, s),
        Instruction::CMP(d, s) => lemma_rt_rr(CMP_OPCODE, d, s),
        Instruction::JMP(t) => lemma_rt_a(JMP_OPCODE, t),
        Instruction::HALT => lemma_enc_fields(HALT_OPCODE, 0, 0),
        Instruction::NOP => lemma_enc_fields(NOP_OPCODE, 0, 0),
    }
}

} // verus!
