use bf_vm::compiler::Compiler;
use bf_vm::crypto::field::{FieldElement, MODULUS};
use bf_vm::machine::{Machine, RuntimeError, DEFAULT_TAPE_SIZE};
use bf_vm::registers::Registers;

fn machine(src: &str, input: &[u8]) -> Machine {
    let code = Compiler::new(src.to_string()).compile().unwrap();
    Machine::new(code, input.to_vec(), DEFAULT_TAPE_SIZE)
}

fn check_trace(code: &[FieldElement], trace: &[Registers], finished: bool) {
    for (r, row) in trace.iter().enumerate() {
        assert_eq!(row.clk.0, r as u64);
        if r > 0 {
            assert_eq!(row.clk.0, trace[r - 1].clk.0 + 1);
        }
        let product = ((row.mv.0 as u128 * row.mvi.0 as u128) % MODULUS as u128) as u64;
        assert!(product == 0 || product == 1);
        assert_eq!(row.mv.0 == 0, row.mvi.0 == 0);
        let terminal = finished && r == trace.len() - 1;
        if terminal {
            assert_eq!(row.ci, FieldElement(0));
            assert_eq!(row.ni, FieldElement(0));
        } else {
            let ip = row.ip.0 as usize;
            assert_eq!(row.ci, code[ip]);
            let ni = if ip + 1 < code.len() { code[ip + 1] } else { FieldElement(0) };
            assert_eq!(row.ni, ni);
        }
    }
}

#[test]
fn two_plus_then_output() {
    let code = Compiler::new("++.".to_string()).compile().unwrap();
    let mut m = Machine::new(code.clone(), vec![], DEFAULT_TAPE_SIZE);
    assert_eq!(m.execute(1000), Ok(()));
    assert_eq!(m.output().clone(), vec![2u8]);
    let trace = m.get_trace();
    assert_eq!(trace.len(), 4);
    let last = trace[3];
    assert_eq!(last.clk, FieldElement(3));
    assert_eq!(last.ip, FieldElement(3));
    assert_eq!(last.ci, FieldElement(0));
    assert_eq!(last.ni, FieldElement(0));
    check_trace(&code, &trace, true);
}

#[test]
fn read_then_echo() {
    let mut m = machine(",.", b"A");
    assert_eq!(m.execute(1000), Ok(()));
    assert_eq!(m.output().clone(), b"A".to_vec());
    assert_eq!(m.tape()[0], FieldElement(65));
    let trace = m.get_trace();
    assert_eq!(trace[1].mv, FieldElement(65));
    assert_eq!(trace[1].mv * trace[1].mvi, FieldElement(1));
}

#[test]
fn move_three_to_next_cell() {
    let code = Compiler::new("+++[>+<-]".to_string()).compile().unwrap();
    let mut m = Machine::new(code.clone(), vec![], DEFAULT_TAPE_SIZE);
    assert_eq!(m.execute(1000), Ok(()));
    assert_eq!(m.tape()[0], FieldElement(0));
    assert_eq!(m.tape()[1], FieldElement(3));
    let trace = m.get_trace();
    assert!(trace.len() > 9);
    assert_eq!(trace.len(), 20);
    check_trace(&code, &trace, true);
}

#[test]
fn endless_loop_reaches_the_cap() {
    let code = Compiler::new("+[]".to_string()).compile().unwrap();
    let mut m = Machine::new(code.clone(), vec![], DEFAULT_TAPE_SIZE);
    assert_eq!(m.execute(50), Err(RuntimeError::CycleLimitReached));
    assert!(!m.is_halted());
    let trace = m.get_trace();
    assert_eq!(trace.len(), 50);
    check_trace(&code, &trace, false);
}

#[test]
fn hello_world() {
    let src = "++++++++[>++++[>++>+++>+++>+<<<<-]>+>+>->>+[<]<-]>>.>---.+++++++..+++.>>.<-.<.+++.------.--------.>>+.>++.";
    let code = Compiler::new(src.to_string()).compile().unwrap();
    let mut m = Machine::new(code.clone(), vec![], DEFAULT_TAPE_SIZE);
    assert_eq!(m.execute(100000), Ok(()));
    assert_eq!(m.output().clone(), b"Hello World!\n".to_vec());
    let trace = m.get_trace();
    assert_eq!(trace.len(), 907);
    check_trace(&code, &trace, true);
}

#[test]
fn running_parts_one_after_another_matches_the_whole() {
    // the first part leaves the tape zeroed at cell 0, so a fresh machine sees the same
    let first = "+++.---";
    let second = ",+.";
    let mut a = machine(first, b"");
    assert_eq!(a.execute(1000), Ok(()));
    let mut b = machine(second, b"x");
    assert_eq!(b.execute(1000), Ok(()));
    let mut whole = machine(&format!("{}{}", first, second), b"x");
    assert_eq!(whole.execute(1000), Ok(()));
    let mut joined = a.output().clone();
    joined.extend(b.output().iter());
    assert_eq!(whole.output().clone(), joined);
}

#[test]
fn minus_on_zero_wraps_in_the_field() {
    let mut m = machine("-.", b"");
    assert_eq!(m.execute(100), Ok(()));
    assert_eq!(m.tape()[0], FieldElement(18446744069414584320));
    assert_eq!(m.output().clone(), vec![0u8]);
}

#[test]
fn skipped_loop_resumes_after_it() {
    let mut m = machine("[+]+.", b"");
    assert_eq!(m.execute(100), Ok(()));
    assert_eq!(m.output().clone(), vec![1u8]);
}

#[test]
fn left_of_first_cell_fails() {
    let mut m = machine("<", b"");
    assert_eq!(m.execute(100), Err(RuntimeError::TapeOutOfBounds));
    assert!(m.is_halted());
    assert_eq!(m.get_trace().len(), 1);
}

#[test]
fn right_of_last_cell_fails() {
    let code = Compiler::new(">>".to_string()).compile().unwrap();
    let mut m = Machine::new(code, vec![], 2);
    assert_eq!(m.execute(100), Err(RuntimeError::TapeOutOfBounds));
    assert_eq!(m.get_trace().len(), 2);
}

#[test]
fn reading_past_the_input_fails() {
    let mut m = machine(",,", b"z");
    assert_eq!(m.execute(100), Err(RuntimeError::InputExhausted));
    assert_eq!(m.tape()[0], FieldElement(122));
}

#[test]
fn cell_without_an_instruction_fails() {
    let mut m = Machine::new(vec![FieldElement(7)], vec![], DEFAULT_TAPE_SIZE);
    assert_eq!(m.execute(100), Err(RuntimeError::InvalidOpcode));
}

#[test]
fn jump_without_target_fails() {
    let mut m = Machine::new(vec![FieldElement(91)], vec![], DEFAULT_TAPE_SIZE);
    assert_eq!(m.execute(100), Err(RuntimeError::MissingJumpTarget));
}

#[test]
fn empty_program_writes_only_the_closing_row() {
    let mut m = Machine::new(vec![], vec![], DEFAULT_TAPE_SIZE);
    assert_eq!(m.execute(10), Ok(()));
    let trace = m.get_trace();
    assert_eq!(trace.len(), 1);
    assert_eq!(trace[0], Registers::new());
}

#[test]
fn stepping_with_input_pushed_on_demand() {
    let code = Compiler::new(",.,.".to_string()).compile().unwrap();
    let mut m = Machine::new(code, vec![], DEFAULT_TAPE_SIZE);
    let mut input = b"ok".iter();
    while !m.is_halted() {
        if m.needs_input() {
            m.push_input(*input.next().unwrap());
        }
        assert_eq!(m.step(), Ok(()));
    }
    assert_eq!(m.output().clone(), b"ok".to_vec());
    assert_eq!(m.cycle_count(), 5);
    assert_eq!(m.registers().clk, FieldElement(4));
}
