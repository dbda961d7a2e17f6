use vstd::prelude::*;

verus! {

use crate::crypto::field::FieldElement;

/// The machine's registers in one cycle, each a field element.
#[derive(Debug, PartialEq, Eq, Structural, Clone, Copy)]
pub struct Registers {
    /// cycle
    pub clk: FieldElement,
    /// instruction pointer
    pub ip: FieldElement,
    /// current instruction
    pub ci: FieldElement,
    /// next instruction
    pub ni: FieldElement,
    /// memory pointer
    pub mp: FieldElement,
    /// memory value
    pub mv: FieldElement,
    /// memory value inverse
    pub mvi: FieldElement,
}

/// All registers zero.
pub open spec fn zero_registers() -> Registers {
    Registers {
        clk: FieldElement(0),
        ip: FieldElement(0),
        ci: FieldElement(0),
        ni: FieldElement(0),
        mp: FieldElement(0),
        mv: FieldElement(0),
        mvi: FieldElement(0),
    }
}

impl Default for Registers {
    fn default() -> (r: Self)
        ensures
            r == zero_registers(),
    {
        Self::new()
    }
}

impl Registers {
    pub fn new() -> (r: Registers)
        ensures
            r == zero_registers(),
    {
        Registers {
            clk: FieldElement::zero(),
            ip: FieldElement::zero(),
            ci: FieldElement::zero(),
            ni: FieldElement::zero(),
            mp: FieldElement::zero(),
            mv: FieldElement::zero(),
            mvi: FieldElement::zero(),
        }
    }
}

} // verus!
