use vstd::prelude::*;

verus! {

use crate::instruction::Instruction;

/// A register file over machine integers, with decoded instructions.
#[derive(Debug)]
pub struct Register {
    /// cycle
    pub clk: u64,
    /// instruction pointer
    pub ip: u64,
    /// current instruction
    pub ci: Instruction,
    /// next instruction
    pub ni: Instruction,
    /// memory pointer
    pub mp: u64,
    /// memory value
    pub mv: u8,
    /// memory value inverse
    pub mvi: u8,
}

impl Register {
    /// Registers at the start: the given instructions, every counter zero.
    pub fn new(ci: Instruction, ni: Instruction) -> (r: Self)
        ensures
            r.clk == 0,
            r.ip == 0,
            r.ci == ci,
            r.ni == ni,
            r.mp == 0,
            r.mv == 0,
            r.mvi == 0,
    {
        Self { clk: 0, ip: 0, ci, ni, mp: 0, mv: 0, mvi: 0 }
    }
}

} // verus!
