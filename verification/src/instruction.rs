//! The instruction set: six opcodes over four registers r0..r3.
use vstd::prelude::*;

verus! {

/// The six opcodes.
#[derive(Debug, Clone, Copy, PartialEq, Eq, Structural)]
pub enum Opcode {
    /// No operation (used for trace padding).
    Nop,
    /// rd = imm
    Imm,
    /// rd = rs1 + rs2
    Add,
    /// rd = rs1 * rs2
    Mul,
    /// rd = rs1 - rs2
    Sub,
    /// Stop execution.
    Halt,
}

/// The numeric encoding of an opcode (0 to 5).
pub open spec fn opcode_code(op: Opcode) -> u8 {
    match op {
        Opcode::Nop => 0,
        Opcode::Imm => 1,
        Opcode::Add => 2,
        Opcode::Mul => 3,
        Opcode::Sub => 4,
        Opcode::Halt => 5,
    }
}

impl Opcode {
    /// Decode an opcode from its number; numbers above 5 are not opcodes.
    pub fn from_u8(v: u8) -> (r: Opcode)
        requires
            v < 6,
        ensures
            opcode_code(r) == v,
    {
        match v {
            0 => Opcode::Nop,
            1 => Opcode::Imm,
            2 => Opcode::Add,
            3 => Opcode::Mul,
            4 => Opcode::Sub,
            _ => Opcode::Halt,
        }
    }

    /// The numeric encoding of this opcode.
    pub fn code(self) -> (r: u8)
        ensures
            r == opcode_code(self),
    {
        match self {
            Opcode::Nop => 0,
            Opcode::Imm => 1,
            Opcode::Add => 2,
            Opcode::Mul => 3,
            Opcode::Sub => 4,
            Opcode::Halt => 5,
        }
    }
}

/// A single instruction.
#[derive(Debug, Clone, Copy)]
pub struct Instruction {
    pub opcode: Opcode,
    pub rd: u8,
    pub rs1: u8,
    pub rs2: u8,
    pub imm: u64,
}

impl Instruction {
    /// NOP.
    pub fn nop() -> (r: Instruction)
        ensures
            r == (Instruction { opcode: Opcode::Nop, rd: 0, rs1: 0, rs2: 0, imm: 0 }),
    {
        Instruction { opcode: Opcode::Nop, rd: 0, rs1: 0, rs2: 0, imm: 0 }
    }

    /// rd = value.
    pub fn imm(rd: u8, value: u64) -> (r: Instruction)
        requires
            rd < 4,
        ensures
            r == (Instruction { opcode: Opcode::Imm, rd, rs1: 0, rs2: 0, imm: value }),
    {
        Instruction { opcode: Opcode::Imm, rd, rs1: 0, rs2: 0, imm: value }
    }

    /// rd = rs1 + rs2.
    pub fn add(rd: u8, rs1: u8, rs2: u8) -> (r: Instruction)
        requires
            rd < 4 && rs1 < 4 && rs2 < 4,
        ensures
            r == (Instruction { opcode: Opcode::Add, rd, rs1, rs2, imm: 0 }),
    {
        Instruction { opcode: Opcode::Add, rd, rs1, rs2, imm: 0 }
    }

    /// rd = rs1 * rs2.
    pub fn mul(rd: u8, rs1: u8, rs2: u8) -> (r: Instruction)
        requires
            rd < 4 && rs1 < 4 && rs2 < 4,
        ensures
            r == (Instruction { opcode: Opcode::Mul, rd, rs1, rs2, imm: 0 }),
    {
        Instruction { opcode: Opcode::Mul, rd, rs1, rs2, imm: 0 }
    }

    /// rd = rs1 - rs2.
    pub fn sub(rd: u8, rs1: u8, rs2: u8) -> (r: Instruction)
        requires
            rd < 4 && rs1 < 4 && rs2 < 4,
        ensures
            r == (Instruction { opcode: Opcode::Sub, rd, rs1, rs2, imm: 0 }),
    {
        Instruction { opcode: Opcode::Sub, rd, rs1, rs2, imm: 0 }
    }

    /// HALT.
    pub fn halt() -> (r: Instruction)
        ensures
            r == (Instruction { opcode: Opcode::Halt, rd: 0, rs1: 0, rs2: 0, imm: 0 }),
    {
        Instruction { opcode: Opcode::Halt, rd: 0, rs1: 0, rs2: 0, imm: 0 }
    }
}

} // verus!
