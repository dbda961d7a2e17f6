use vstd::prelude::*;

verus! {

/// An instruction together with a one-byte argument.
#[derive(Debug, Clone)]
pub struct Instruction {
    pub ins_type: InstructionType,
    pub argument: u8,
}

/// The eight instructions of the tape language.
#[derive(PartialEq, Eq, Structural, Debug, Clone, Copy)]
pub enum InstructionType {
    /// '>': move the memory pointer one cell to the right.
    Right,
    /// '<': move the memory pointer one cell to the left.
    Left,
    /// '+': add one to the current cell.
    Plus,
    /// '-': subtract one from the current cell.
    Minus,
    /// '.': write the current cell as one byte.
    PutChar,
    /// ',': read one byte into the current cell.
    ReadChar,
    /// '[': jump past the matching ']' when the current cell is zero.
    JumpIfZero,
    /// ']': jump back into the loop when the current cell is nonzero.
    JumpIfNotZero,
}

/// The ASCII code of an instruction's symbol.
pub open spec fn opcode_of(t: InstructionType) -> u8 {
    match t {
        InstructionType::Right => 62,
        InstructionType::Left => 60,
        InstructionType::Plus => 43,
        InstructionType::Minus => 45,
        InstructionType::PutChar => 46,
        InstructionType::ReadChar => 44,
        InstructionType::JumpIfZero => 91,
        InstructionType::JumpIfNotZero => 93,
    }
}

/// The instruction whose symbol has ASCII code `b`, if any.
pub open spec fn decode_spec(b: int) -> Option<InstructionType> {
    if b == 62 {
        Some(InstructionType::Right)
    } else if b == 60 {
        Some(InstructionType::Left)
    } else if b == 43 {
        Some(InstructionType::Plus)
    } else if b == 45 {
        Some(InstructionType::Minus)
    } else if b == 46 {
        Some(InstructionType::PutChar)
    } else if b == 44 {
        Some(InstructionType::ReadChar)
    } else if b == 91 {
        Some(InstructionType::JumpIfZero)
    } else if b == 93 {
        Some(InstructionType::JumpIfNotZero)
    } else {
        None
    }
}

/// Whether `c` is one of the eight instruction symbols.
pub open spec fn is_symbol(c: char) -> bool {
    decode_spec(c as int) is Some
}

impl InstructionType {
    /// The instruction whose symbol has ASCII code `ins`.
    pub fn from_u8(ins: u8) -> (r: Self)
        requires
            decode_spec(ins as int) is Some,
        ensures
            decode_spec(ins as int) == Some(r),
            opcode_of(r) == ins,
    {
        Self::decode(ins as u64).unwrap()
    }

    /// The instruction whose symbol has ASCII code `b`, or `None`.
    pub fn decode(b: u64) -> (r: Option<Self>)
        ensures
            r == decode_spec(b as int),
    {
        if b == 62 {
            Some(InstructionType::Right)
        } else if b == 60 {
            Some(InstructionType::Left)
        } else if b == 43 {
            Some(InstructionType::Plus)
        } else if b == 45 {
            Some(InstructionType::Minus)
        } else if b == 46 {
            Some(InstructionType::PutChar)
        } else if b == 44 {
            Some(InstructionType::ReadChar)
        } else if b == 91 {
            Some(InstructionType::JumpIfZero)
        } else if b == 93 {
            Some(InstructionType::JumpIfNotZero)
        } else {
            None
        }
    }

    /// The instruction written as the character `c`, or `None`.
    pub fn from_char(c: char) -> (r: Option<Self>)
        ensures
            r == decode_spec(c as int),
    {
        Self::decode(c as u32 as u64)
    }

    /// The ASCII code of the instruction's symbol.
    pub fn opcode(&self) -> (r: u8)
        ensures
            r == opcode_of(*self),
    {
        match self {
            InstructionType::Right => 62,
            InstructionType::Left => 60,
            InstructionType::Plus => 43,
            InstructionType::Minus => 45,
            InstructionType::PutChar => 46,
            InstructionType::ReadChar => 44,
            InstructionType::JumpIfZero => 91,
            InstructionType::JumpIfNotZero => 93,
        }
    }

    /// The instruction's symbol.
    pub fn symbol(&self) -> (r: char)
        ensures
            r as int == opcode_of(*self) as int,
    {
        match self {
            InstructionType::Right => '>',
            InstructionType::Left => '<',
            InstructionType::Plus => '+',
            InstructionType::Minus => '-',
            InstructionType::PutChar => '.',
            InstructionType::ReadChar => ',',
            InstructionType::JumpIfZero => '[',
            InstructionType::JumpIfNotZero => ']',
        }
    }
}

impl std::str::FromStr for InstructionType {
    type Err = ();

    /// Parses a string made of exactly one instruction symbol.
    fn from_str(s: &str) -> (r: Result<Self, ()>)
        ensures
            s@.len() != 1 ==> r is Err,
            s@.len() == 1 ==> match decode_spec(s@[0] as int) {
                Some(t) => r == Ok::<Self, ()>(t),
                None => r is Err,
            },
    {
        if s.unicode_len() != 1 {
            return Err(());
        }
        match Self::from_char(s.get_char(0)) {
            Some(t) => Ok(t),
            None => Err(()),
        }
    }
}

} // verus!
