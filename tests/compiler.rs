use bf_vm::compiler::{CompileError, Compiler};
use bf_vm::crypto::field::FieldElement;

fn compile(src: &str) -> Result<Vec<FieldElement>, CompileError> {
    Compiler::new(src.to_string()).compile()
}

fn values(mem: &[FieldElement]) -> Vec<u64> {
    mem.iter().map(|f| f.0).collect()
}

#[test]
fn straight_line_program_is_its_ascii_codes() {
    assert_eq!(values(&compile("+-<>.,").unwrap()), vec![43, 45, 60, 62, 46, 44]);
}

#[test]
fn empty_source_compiles_to_nothing() {
    assert_eq!(compile("").unwrap(), vec![]);
    assert_eq!(compile("hello world").unwrap(), vec![]);
}

#[test]
fn loop_targets() {
    // '[' at 3 targets 10, the cell after ']' at 9; ']' targets 5, the first cell of the body
    assert_eq!(
        values(&compile("+++[>+<-]").unwrap()),
        vec![43, 43, 43, 91, 10, 62, 43, 60, 45, 93, 5]
    );
}

#[test]
fn nested_loop_targets() {
    assert_eq!(
        values(&compile("+[[-]>]<").unwrap()),
        vec![43, 91, 10, 91, 7, 45, 93, 5, 62, 93, 3, 60]
    );
}

#[test]
fn compiled_length_counts_target_cells() {
    let src = "++[>+[-]<-]>.";
    let mem = compile(src).unwrap();
    let symbols = src.len();
    let loops = src.chars().filter(|c| *c == '[').count();
    assert_eq!(mem.len(), symbols + 2 * loops);
}

#[test]
fn every_open_bracket_points_past_its_close() {
    let src = "+[[-]>[+<]]<";
    let mem = values(&compile(src).unwrap());
    let mut i = 0;
    while i < mem.len() {
        if mem[i] == 91 {
            let t = mem[i + 1] as usize;
            assert_eq!(mem[t - 1], 93);
            assert_eq!(mem[t] as usize, i + 2);
        }
        if mem[i] == 91 || mem[i] == 93 {
            i += 2;
        } else {
            i += 1;
        }
    }
}

#[test]
fn other_characters_are_dropped() {
    let plain = compile("+[->+<]").unwrap();
    let noisy = compile(" + [ -\n> add + <\t] done").unwrap();
    assert_eq!(plain, noisy);
}

#[test]
fn unmatched_close_is_reported() {
    assert_eq!(compile("+]"), Err(CompileError::UnbalancedBrackets(1)));
    assert_eq!(compile("[]]["), Err(CompileError::UnbalancedBrackets(2)));
}

#[test]
fn unmatched_open_is_reported() {
    assert_eq!(compile("[+"), Err(CompileError::UnbalancedBrackets(0)));
    assert_eq!(compile("[[]"), Err(CompileError::UnbalancedBrackets(0)));
    assert_eq!(compile("[][+[]"), Err(CompileError::UnbalancedBrackets(2)));
}
