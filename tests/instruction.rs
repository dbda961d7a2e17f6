use bf_vm::instruction::{Instruction, InstructionType};
use bf_vm::register::Register;
use bf_vm::registers::Registers;
use bf_vm::crypto::field::FieldElement;
use std::str::FromStr;

#[test]
fn bytes_decode_to_instructions() {
    assert_eq!(InstructionType::from_u8(b'>'), InstructionType::Right);
    assert_eq!(InstructionType::from_u8(b'<'), InstructionType::Left);
    assert_eq!(InstructionType::from_u8(b'+'), InstructionType::Plus);
    assert_eq!(InstructionType::from_u8(b'-'), InstructionType::Minus);
    assert_eq!(InstructionType::from_u8(b'.'), InstructionType::PutChar);
    assert_eq!(InstructionType::from_u8(b','), InstructionType::ReadChar);
    assert_eq!(InstructionType::from_u8(b'['), InstructionType::JumpIfZero);
    assert_eq!(InstructionType::from_u8(b']'), InstructionType::JumpIfNotZero);
    assert_eq!(InstructionType::decode(65), None);
}

#[test]
fn opcodes_round_trip() {
    for c in "><+-.,[]".chars() {
        let t = InstructionType::from_char(c).unwrap();
        assert_eq!(t.symbol(), c);
        assert_eq!(t.opcode() as u32, c as u32);
        assert_eq!(InstructionType::decode(t.opcode() as u64), Some(t));
    }
    assert_eq!(InstructionType::from_char('x'), None);
}

#[test]
fn parse_from_str() {
    assert_eq!(InstructionType::from_str("["), Ok(InstructionType::JumpIfZero));
    assert_eq!(InstructionType::from_str("[["), Err(()));
    assert_eq!(InstructionType::from_str("a"), Err(()));
    assert_eq!(InstructionType::from_str(""), Err(()));
}

#[test]
fn register_starts_at_zero() {
    let ci = Instruction { ins_type: InstructionType::Plus, argument: 1 };
    let ni = Instruction { ins_type: InstructionType::Minus, argument: 2 };
    let r = Register::new(ci, ni);
    assert_eq!((r.clk, r.ip, r.mp, r.mv, r.mvi), (0, 0, 0, 0, 0));
    assert_eq!(r.ci.ins_type, InstructionType::Plus);
    assert_eq!(r.ni.argument, 2);
}

#[test]
fn registers_start_at_zero() {
    let r = Registers::new();
    assert_eq!(r.clk, FieldElement(0));
    assert_eq!(r.mvi, FieldElement(0));
    assert_eq!(Registers::default(), r);
}
