//! The opcode byte: which kind of operation an instruction performs.

use vstd::prelude::*;

verus! {

/// One byte from a closed set. The numeric encoding is stable within
/// a single build: readers use the encoding the writer used.
#[derive(Clone, Copy, Debug, PartialEq, Eq, Structural)]
pub enum Opcode {
    Nop,
    Phi,
    Const,
    Cmp,
    Bini,
    Ret,
    Branch,
    Jump,
}

impl Opcode {
    /// The byte that encodes this opcode.
    pub open spec fn code(self) -> u8 {
        match self {
            Opcode::Nop => 1,
            Opcode::Phi => 2,
            Opcode::Const => 3,
            Opcode::Cmp => 4,
            Opcode::Bini => 5,
            Opcode::Ret => 6,
            Opcode::Branch => 7,
            Opcode::Jump => 8,
        }
    }

    /// Whether `byte` encodes some opcode.
    pub open spec fn spec_valid_u8(byte: u8) -> bool {
        1 <= byte <= 8
    }

    pub fn valid_u8(byte: u8) -> (r: bool)
        ensures
            r == Opcode::spec_valid_u8(byte),
    {
        1 <= byte && byte <= 8
    }

    pub fn into_u8(self) -> (r: u8)
        ensures
            r == self.code(),
    {
        match self {
            Opcode::Nop => 1,
            Opcode::Phi => 2,
            Opcode::Const => 3,
            Opcode::Cmp => 4,
            Opcode::Bini => 5,
            Opcode::Ret => 6,
            Opcode::Branch => 7,
            Opcode::Jump => 8,
        }
    }

    pub fn from_u8(byte: u8) -> (r: Opcode)
        requires
            Opcode::spec_valid_u8(byte),
        ensures
            r.code() == byte,
    {
        if byte == 1 {
            Opcode::Nop
        } else if byte == 2 {
            Opcode::Phi
        } else if byte == 3 {
            Opcode::Const
        } else if byte == 4 {
            Opcode::Cmp
        } else if byte == 5 {
            Opcode::Bini
        } else if byte == 6 {
            Opcode::Ret
        } else if byte == 7 {
            Opcode::Branch
        } else {
            Opcode::Jump
        }
    }
}

} // verus!
