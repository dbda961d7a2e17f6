use vstd::prelude::*;

verus! {

use crate::crypto::field::{FieldElement, MODULUS};
use crate::instruction::{InstructionType, decode_spec};
use crate::registers::{Registers, zero_registers};
use vstd::std_specs::ops::{AddSpec, SubSpec};

/// Tape length used when the caller has no other requirement.
pub const DEFAULT_TAPE_SIZE: usize = 100;

/// Why a run stopped before reaching the end of the program.
#[derive(Debug, PartialEq, Eq, Structural, Clone, Copy)]
pub enum RuntimeError {
    /// The memory pointer would leave the tape.
    TapeOutOfBounds,
    /// ',' found no input byte left.
    InputExhausted,
    /// The current cell of program memory holds no instruction.
    InvalidOpcode,
    /// A jump opcode is the last cell of program memory, with no target after it.
    MissingJumpTarget,
    /// The cycle budget given to `execute` ran out first.
    CycleLimitReached,
}

/// The program being run.
pub struct ProgramMemory {
    code: Vec<FieldElement>,
}

/// The tape and the registers.
pub struct MutableState {
    ram: Vec<FieldElement>,
    registers: Registers,
}

/// Input bytes not yet read, and output bytes written.
pub struct IO {
    input: Vec<u8>,
    read_pos: usize,
    output: Vec<u8>,
}

/// Runs program memory over the field, recording the registers of every cycle.
pub struct Machine {
    program: ProgramMemory,
    state: MutableState,
    io: IO,
    trace: Vec<Registers>,
    halted: bool,
    finished: bool,
}

/// The whole state of a machine, as the contracts see it.
pub struct MachineState {
    pub code: Seq<FieldElement>,
    pub ram: Seq<FieldElement>,
    pub registers: Registers,
    pub input: Seq<u8>,
    pub read_pos: int,
    pub output: Seq<u8>,
    pub trace: Seq<Registers>,
    /// No further cycle runs: the program ended or a cycle failed.
    pub halted: bool,
    /// The program ran to its end and the closing row was written.
    pub finished: bool,
}

/// Cell `i` of program memory, or zero past its end.
pub open spec fn fetch(code: Seq<FieldElement>, i: int) -> FieldElement {
    if 0 <= i < code.len() {
        code[i]
    } else {
        FieldElement(0)
    }
}

/// mv and mvi agree: both zero, or mvi is the inverse of mv.
pub open spec fn inverse_pair(r: Registers) -> bool {
    ||| r.mv.0 == 0 && r.mvi.0 == 0
    ||| r.mv.0 != 0 && r.mvi.0 != 0 && (r.mv.0 * r.mvi.0) % (MODULUS as int) == 1
}

/// ci and ni set to the given values.
pub open spec fn with_instructions(s: MachineState, ci: FieldElement, ni: FieldElement) -> MachineState {
    MachineState { registers: Registers { ci, ni, ..s.registers }, ..s }
}

/// The clock and the instruction pointer move on by one.
pub open spec fn advance(s: MachineState) -> MachineState {
    MachineState {
        registers: Registers {
            clk: s.registers.clk.add_spec(FieldElement(1)),
            ip: s.registers.ip.add_spec(FieldElement(1)),
            ..s.registers
        },
        ..s
    }
}

/// The registers are appended to the trace.
pub open spec fn snapshot(s: MachineState) -> MachineState {
    MachineState { trace: s.trace.push(s.registers), ..s }
}

/// mv takes the current cell, and mvi its inverse (zero for zero).
pub open spec fn refresh(s: MachineState) -> MachineState {
    let mv = s.ram[s.registers.mp.0 as int];
    MachineState {
        registers: Registers {
            mv,
            mvi: if mv.0 == 0 {
                FieldElement(0)
            } else {
                mv.spec_inverse()
            },
            ..s.registers
        },
        ..s
    }
}

/// The current cell set to `v`.
pub open spec fn with_ram(s: MachineState, v: FieldElement) -> MachineState {
    MachineState { ram: s.ram.update(s.registers.mp.0 as int, v), ..s }
}

/// The memory pointer set to `mp`.
pub open spec fn with_mp(s: MachineState, mp: FieldElement) -> MachineState {
    MachineState { registers: Registers { mp, ..s.registers }, ..s }
}

/// The instruction pointer set to `ip`.
pub open spec fn with_ip(s: MachineState, ip: FieldElement) -> MachineState {
    MachineState { registers: Registers { ip, ..s.registers }, ..s }
}

/// The effect of the current instruction `ci`.
pub open spec fn dispatch_spec(s: MachineState) -> Result<MachineState, RuntimeError> {
    let r = s.registers;
    let mp = r.mp.0 as int;
    let cell = s.ram[mp];
    let ip = r.ip.0 as int;
    match decode_spec(r.ci.0 as int) {
        None => Err(RuntimeError::InvalidOpcode),
        Some(InstructionType::Right) => if mp + 1 < s.ram.len() {
            Ok(refresh(with_mp(s, r.mp.add_spec(FieldElement(1)))))
        } else {
            Err(RuntimeError::TapeOutOfBounds)
        },
        Some(InstructionType::Left) => if mp > 0 {
            Ok(refresh(with_mp(s, r.mp.sub_spec(FieldElement(1)))))
        } else {
            Err(RuntimeError::TapeOutOfBounds)
        },
        Some(InstructionType::Plus) => Ok(refresh(with_ram(s, cell.add_spec(FieldElement(1))))),
        Some(InstructionType::Minus) => Ok(refresh(with_ram(s, cell.sub_spec(FieldElement(1))))),
        Some(InstructionType::ReadChar) => if s.read_pos < s.input.len() {
            Ok(
                refresh(
                    MachineState {
                        read_pos: s.read_pos + 1,
                        ..with_ram(s, FieldElement(s.input[s.read_pos] as u64))
                    },
                ),
            )
        } else {
            Err(RuntimeError::InputExhausted)
        },
        Some(InstructionType::PutChar) => Ok(
            refresh(MachineState { output: s.output.push((cell.0 % 256) as u8), ..s }),
        ),
        Some(InstructionType::JumpIfZero) => if ip + 1 < s.code.len() {
            let target = s.code[ip + 1];
            let t = MachineState { registers: Registers { ni: target, ..r }, ..s };
            if cell.0 == 0 {
                Ok(with_ip(t, target))
            } else {
                Ok(with_ip(t, r.ip.add_spec(FieldElement(1))))
            }
        } else {
            Err(RuntimeError::MissingJumpTarget)
        },
        Some(InstructionType::JumpIfNotZero) => if ip + 1 < s.code.len() {
            let target = s.code[ip + 1];
            if cell.0 != 0 {
                Ok(with_ip(s, target.sub_spec(FieldElement(1))))
            } else {
                Ok(with_ip(s, r.ip.add_spec(FieldElement(1))))
            }
        } else {
            Err(RuntimeError::MissingJumpTarget)
        },
    }
}

/// A cycle whose ci and ni are set: snapshot, then dispatch. A failed dispatch halts.
pub open spec fn cycle_spec(s: MachineState) -> (MachineState, Result<(), RuntimeError>) {
    let t = snapshot(s);
    match dispatch_spec(t) {
        Ok(u) => (u, Ok(())),
        Err(e) => (MachineState { halted: true, ..t }, Err(e)),
    }
}

/// The closing row: ci = ni = 0, then the machine halts.
pub open spec fn finish_spec(s: MachineState) -> MachineState {
    MachineState {
        halted: true,
        finished: true,
        ..snapshot(with_instructions(s, FieldElement(0), FieldElement(0)))
    }
}

/// One clock cycle. The first cycle fetches at ip; later ones first advance clk and ip,
/// while ip is before the last cell; after that the closing row is written.
pub open spec fn step_spec(s: MachineState) -> (MachineState, Result<(), RuntimeError>) {
    let len = s.code.len();
    if s.trace.len() == 0 && len == 0 {
        (finish_spec(s), Ok(()))
    } else if s.trace.len() == 0 {
        let ip = s.registers.ip.0 as int;
        cycle_spec(with_instructions(s, s.code[ip], fetch(s.code, ip + 1)))
    } else if s.registers.ip.0 + 1 < len {
        let a = advance(s);
        let ip = a.registers.ip.0 as int;
        cycle_spec(with_instructions(a, a.code[ip], fetch(a.code, ip + 1)))
    } else {
        (finish_spec(advance(s)), Ok(()))
    }
}

/// Cycles until the machine halts, for at most `fuel` cycles.
pub open spec fn run_spec(s: MachineState, fuel: nat) -> (MachineState, Result<(), RuntimeError>)
    decreases fuel,
{
    if s.halted {
        (s, Ok(()))
    } else if fuel == 0 {
        (s, Err(RuntimeError::CycleLimitReached))
    } else {
        let (t, r) = step_spec(s);
        if r is Err {
            (t, r)
        } else {
            run_spec(t, (fuel - 1) as nat)
        }
    }
}

/// What holds of every row of the trace.
pub open spec fn trace_invariants(s: MachineState) -> bool {
    let n = s.trace.len();
    let p = MODULUS as int;
    &&& forall|r: int| 0 <= r < n ==> (#[trigger] s.trace[r]).clk.0 == r
    &&& forall|r: int|
        0 < r < n ==> (#[trigger] s.trace[r]).clk.0 == s.trace[r - 1].clk.0 + 1
    &&& forall|r: int|
        0 <= r < n && !(s.finished && r == n - 1) ==> {
            let row = #[trigger] s.trace[r];
            &&& row.ip.0 < s.code.len()
            &&& row.ci == s.code[row.ip.0 as int]
            &&& row.ni == fetch(s.code, row.ip.0 + 1)
        }
    &&& forall|r: int|
        0 <= r < n ==> {
            let row = #[trigger] s.trace[r];
            &&& ((row.mv.0 * row.mvi.0) % p == 0 || (row.mv.0 * row.mvi.0) % p == 1)
            &&& (row.mv.0 == 0 <==> row.mvi.0 == 0)
        }
    &&& s.finished ==> n > 0 && s.trace[n - 1].ci == FieldElement(0) && s.trace[n - 1].ni
        == FieldElement(0)
}

/// Invariant of the program, the tape and the registers.
pub open spec fn wf_core(s: MachineState) -> bool {
    let r = s.registers;
    &&& forall|i: int| 0 <= i < s.code.len() ==> (#[trigger] s.code[i]).wf()
    &&& s.code.len() < MODULUS
    &&& 0 < s.ram.len() < MODULUS
    &&& forall|i: int| 0 <= i < s.ram.len() ==> (#[trigger] s.ram[i]).wf()
    &&& r.mp.0 < s.ram.len()
    &&& r.mv == s.ram[r.mp.0 as int]
    &&& inverse_pair(r)
    &&& r.ip.wf()
    &&& 0 <= s.read_pos <= s.input.len()
}

/// The machine's invariant.
pub open spec fn wf_state(s: MachineState) -> bool {
    let r = s.registers;
    &&& wf_core(s)
    &&& (s.trace.len() == 0 ==> r.clk.0 == 0 && r.ip.0 == 0 && !s.halted)
    &&& (s.trace.len() > 0 ==> r.clk.0 == s.trace.len() - 1)
    &&& (s.trace.len() > 0 && s.code.len() == 0 ==> s.halted)
    &&& (s.finished ==> s.halted)
    &&& forall|i: int| 0 <= i < s.trace.len() ==> inverse_pair(#[trigger] s.trace[i])
    &&& trace_invariants(s)
}

proof fn lemma_inverse_of_cell(v: FieldElement)
    requires
        v.wf(),
        v.0 != 0,
    ensures
        v.spec_inverse().wf(),
        v.spec_inverse().0 != 0,
        (v.0 * v.spec_inverse().0) % (MODULUS as int) == 1,
{
    crate::crypto::field::lemma_field_inv(v.0 as int);
    let y = crate::crypto::field::field_inv(v.0 as int);
    if y == 0 {
        assert(v.0 * y == 0) by (nonlinear_arith)
            requires
                y == 0,
        ;
    }
}

proof fn lemma_refresh_wf(s: MachineState)
    requires
        forall|i: int| 0 <= i < s.ram.len() ==> (#[trigger] s.ram[i]).wf(),
        s.registers.mp.0 < s.ram.len(),
    ensures
        inverse_pair(refresh(s).registers),
        refresh(s).registers.mv == s.ram[s.registers.mp.0 as int],
{
    let mv = s.ram[s.registers.mp.0 as int];
    if mv.0 != 0 {
        lemma_inverse_of_cell(mv);
    }
}

proof fn lemma_dispatch_wf(t: MachineState)
    requires
        wf_core(t),
    ensures
        match dispatch_spec(t) {
            Ok(u) => {
                &&& wf_core(u)
                &&& u.trace == t.trace
                &&& u.code == t.code
                &&& u.input == t.input
                &&& u.registers.clk == t.registers.clk
                &&& u.halted == t.halted
                &&& u.finished == t.finished
            },
            Err(_) => true,
        },
{
    let r = t.registers;
    let mp = r.mp.0 as int;
    let p = MODULUS as int;
    match decode_spec(r.ci.0 as int) {
        Some(InstructionType::Right) => {
            if mp + 1 < t.ram.len() {
                let u = with_mp(t, r.mp.add_spec(FieldElement(1)));
                vstd::arithmetic::div_mod::lemma_small_mod((mp + 1) as nat, p as nat);
                lemma_refresh_wf(u);
            }
        },
        Some(InstructionType::Left) => {
            if mp > 0 {
                let u = with_mp(t, r.mp.sub_spec(FieldElement(1)));
                vstd::arithmetic::div_mod::lemma_mod_adds(mp - 1, p, p);
                vstd::arithmetic::div_mod::lemma_mod_multiples_vanish(1, mp - 1, p);
                vstd::arithmetic::div_mod::lemma_small_mod((mp - 1) as nat, p as nat);
                assert((mp + p - 1) % p == mp - 1);
                lemma_refresh_wf(u);
            }
        },
        Some(InstructionType::Plus) => {
            let u = with_ram(t, t.ram[mp].add_spec(FieldElement(1)));
            vstd::arithmetic::div_mod::lemma_mod_bound(t.ram[mp].0 + 1, p);
            lemma_refresh_wf(u);
        },
        Some(InstructionType::Minus) => {
            let u = with_ram(t, t.ram[mp].sub_spec(FieldElement(1)));
            vstd::arithmetic::div_mod::lemma_mod_bound(t.ram[mp].0 + p - 1, p);
            lemma_refresh_wf(u);
        },
        Some(InstructionType::ReadChar) => {
            if t.read_pos < t.input.len() {
                let u = MachineState {
                    read_pos: t.read_pos + 1,
                    ..with_ram(t, FieldElement(t.input[t.read_pos] as u64))
                };
                lemma_refresh_wf(u);
            }
        },
        Some(InstructionType::PutChar) => {
            let u = MachineState { output: t.output.push((t.ram[mp].0 % 256) as u8), ..t };
            lemma_refresh_wf(u);
        },
        Some(InstructionType::JumpIfZero) => {
            vstd::arithmetic::div_mod::lemma_mod_bound(r.ip.0 + 1, p);
        },
        Some(InstructionType::JumpIfNotZero) => {
            vstd::arithmetic::div_mod::lemma_mod_bound(r.ip.0 + 1, p);
            if r.ip.0 + 1 < t.code.len() {
                vstd::arithmetic::div_mod::lemma_mod_bound(t.code[r.ip.0 + 1].0 + p - 1, p);
            }
        },
        None => {},
    }
}

/// Every cycle keeps the machine's invariant, and with it the trace properties.
pub proof fn lemma_step_wf(s: MachineState)
    requires
        wf_state(s),
        !s.halted,
        s.trace.len() + 1 < MODULUS,
    ensures
        wf_state(step_spec(s).0),
        step_spec(s).0.trace.len() == s.trace.len() + 1,
        step_spec(s).0.input == s.input,
{
    let n = s.trace.len();
    let len = s.code.len();
    let p = MODULUS as int;
    assert(!s.finished);
    if n == 0 && len == 0 {
        let f = finish_spec(s);
        assert(f.trace[0] == f.trace.last());
    } else {
        let a = if n == 0 {
            s
        } else {
            advance(s)
        };
        if n > 0 {
            vstd::arithmetic::div_mod::lemma_small_mod(n as nat, p as nat);
            vstd::arithmetic::div_mod::lemma_mod_bound(s.registers.ip.0 + 1, p);
            if s.registers.ip.0 + 1 < len {
                vstd::arithmetic::div_mod::lemma_small_mod((s.registers.ip.0 + 1) as nat, p as nat);
            }
        }
        if n == 0 || s.registers.ip.0 + 1 < len {
            let ip = a.registers.ip.0 as int;
            let w = with_instructions(a, a.code[ip], fetch(a.code, ip + 1));
            let t = snapshot(w);
            assert(t.trace[n as int] == w.registers);
            assert(wf_core(t));
            lemma_dispatch_wf(t);
            assert(trace_invariants(t));
        } else {
            let f = finish_spec(a);
            assert(f.trace[n as int] == f.trace.last());
        }
    }
}

impl Machine {
    pub closed spec fn view(&self) -> MachineState {
        MachineState {
            code: self.program.code@,
            ram: self.state.ram@,
            registers: self.state.registers,
            input: self.io.input@,
            read_pos: self.io.read_pos as int,
            output: self.io.output@,
            trace: self.trace@,
            halted: self.halted,
            finished: self.finished,
        }
    }

    /// A machine at its start: a zeroed tape of `tape_size` cells, zeroed registers, an empty
    /// trace, and `input` as the bytes that ',' will read.
    pub fn new(code: Vec<FieldElement>, input: Vec<u8>, tape_size: usize) -> (r: Machine)
        requires
            forall|i: int| 0 <= i < code@.len() ==> (#[trigger] code@[i]).wf(),
            code@.len() < MODULUS,
            0 < tape_size < MODULUS,
        ensures
            r@.code == code@,
            r@.ram == Seq::new(tape_size as nat, |i: int| FieldElement(0)),
            r@.registers == zero_registers(),
            r@.input == input@,
            r@.read_pos == 0,
            r@.output == Seq::<u8>::empty(),
            r@.trace == Seq::<Registers>::empty(),
            !r@.halted,
            !r@.finished,
            wf_state(r@),
    {
        let mut ram: Vec<FieldElement> = Vec::new();
        while ram.len() < tape_size
            invariant
                ram.len() <= tape_size,
                forall|i: int| 0 <= i < ram.len() ==> ram@[i] == FieldElement(0),
            decreases tape_size - ram.len(),
        {
            ram.push(FieldElement::zero());
        }
        proof {
            assert(ram@ =~= Seq::new(tape_size as nat, |i: int| FieldElement(0)));
        }
        Machine {
            program: ProgramMemory { code },
            state: MutableState { ram, registers: Registers::new() },
            io: IO { input, read_pos: 0, output: Vec::new() },
            trace: Vec::new(),
            halted: false,
            finished: false,
        }
    }

    /// mv takes the current cell, and mvi its inverse (zero for zero).
    fn load_memory_value(&mut self)
        requires
            old(self).state.registers.mp.0 < old(self).state.ram@.len(),
            forall|i: int| 0 <= i < old(self).state.ram@.len() ==> (#[trigger] old(self).state.ram@[i]).wf(),
        ensures
            final(self)@ == refresh(old(self)@),
    {
        proof {
            assert(self.state.ram@.len() == self.state.ram.len());
        }
        let mv = self.state.ram[self.state.registers.mp.0 as usize];
        self.state.registers.mv = mv;
        self.state.registers.mvi = if mv.0 == 0 {
            FieldElement::zero()
        } else {
            mv.inverse()
        };
    }

    /// ',': one input byte into the current cell.
    fn read_char(&mut self) -> (r: Result<(), RuntimeError>)
        requires
            old(self).state.registers.mp.0 < old(self).state.ram@.len(),
            old(self).io.read_pos <= old(self).io.input@.len(),
        ensures
            old(self).io.read_pos < old(self).io.input@.len() ==> r == Ok::<(), RuntimeError>(()) && final(self)@ == (
            MachineState {
                read_pos: old(self)@.read_pos + 1,
                ..with_ram(old(self)@, FieldElement(old(self)@.input[old(self)@.read_pos] as u64))
            }),
            old(self).io.read_pos == old(self).io.input@.len() ==> r == Err::<(), RuntimeError>(
                RuntimeError::InputExhausted,
            ) && final(self)@ == old(self)@,
    {
        if self.io.read_pos >= self.io.input.len() {
            return Err(RuntimeError::InputExhausted);
        }
        let byte = self.io.input[self.io.read_pos];
        self.io.read_pos = self.io.read_pos + 1;
        proof {
            assert(self.state.ram@.len() == self.state.ram.len());
        }
        let mp = self.state.registers.mp.0 as usize;
        self.state.ram.set(mp, FieldElement(byte as u64));
        Ok(())
    }

    /// '.': the low byte of the current cell to the output.
    fn write_char(&mut self)
        requires
            old(self).state.registers.mp.0 < old(self).state.ram@.len(),
        ensures
            final(self)@ == (MachineState {
                output: old(self)@.output.push(
                    (old(self)@.ram[old(self)@.registers.mp.0 as int].0 % 256) as u8,
                ),
                ..old(self)@
            }),
    {
        proof {
            assert(self.state.ram@.len() == self.state.ram.len());
        }
        let cell = self.state.ram[self.state.registers.mp.0 as usize];
        self.io.output.push((cell.0 % 256) as u8);
    }

    /// The effect of the current instruction, decoded as `ins`.
    fn execute_instruction(&mut self, ins: InstructionType) -> (r: Result<(), RuntimeError>)
        requires
            decode_spec(old(self)@.registers.ci.0 as int) == Some(ins),
            0 < old(self)@.ram.len() < MODULUS,
            old(self)@.registers.mp.0 < old(self)@.ram.len(),
            forall|i: int| 0 <= i < old(self)@.ram.len() ==> (#[trigger] old(self)@.ram[i]).wf(),
            old(self)@.read_pos <= old(self)@.input.len(),
            old(self)@.registers.ip.wf(),
        ensures
            match dispatch_spec(old(self)@) {
                Ok(t) => r == Ok::<(), RuntimeError>(()) && final(self)@ == t,
                Err(e) => r == Err::<(), RuntimeError>(e) && final(self)@ == old(self)@,
            },
    {
        proof {
            assert(self.state.ram@.len() == self.state.ram.len());
            assert(self.program.code@.len() == self.program.code.len());
        }
        let mp = self.state.registers.mp.0 as usize;
        match ins {
            InstructionType::Right => {
                if mp + 1 >= self.state.ram.len() {
                    return Err(RuntimeError::TapeOutOfBounds);
                }
                self.state.registers.mp = self.state.registers.mp + FieldElement::one();
            },
            InstructionType::Left => {
                if mp == 0 {
                    return Err(RuntimeError::TapeOutOfBounds);
                }
                self.state.registers.mp = self.state.registers.mp - FieldElement::one();
            },
            InstructionType::Plus => {
                let v = self.state.ram[mp] + FieldElement::one();
                self.state.ram.set(mp, v);
            },
            InstructionType::Minus => {
                let v = self.state.ram[mp] - FieldElement::one();
                self.state.ram.set(mp, v);
            },
            InstructionType::ReadChar => {
                let res = self.read_char();
                if res.is_err() {
                    return res;
                }
            },
            InstructionType::PutChar => {
                self.write_char();
            },
            InstructionType::JumpIfZero => {
                if self.state.registers.ip.0 as u128 + 1 >= self.program.code.len() as u128 {
                    return Err(RuntimeError::MissingJumpTarget);
                }
                let ip = self.state.registers.ip.0 as usize;
                let argument = self.program.code[ip + 1];
                self.state.registers.ni = argument;
                if self.state.ram[mp].0 == 0 {
                    self.state.registers.ip = argument;
                } else {
                    self.state.registers.ip = self.state.registers.ip + FieldElement::one();
                }
                return Ok(());
            },
            InstructionType::JumpIfNotZero => {
                if self.state.registers.ip.0 as u128 + 1 >= self.program.code.len() as u128 {
                    return Err(RuntimeError::MissingJumpTarget);
                }
                let ip = self.state.registers.ip.0 as usize;
                let argument = self.program.code[ip + 1];
                if self.state.ram[mp].0 != 0 {
                    self.state.registers.ip = argument - FieldElement::one();
                } else {
                    self.state.registers.ip = self.state.registers.ip + FieldElement::one();
                }
                return Ok(());
            },
        }
        self.load_memory_value();
        Ok(())
    }

    /// The clock and the instruction pointer move on by one.
    fn next_clock_cycle(&mut self)
        ensures
            final(self)@ == advance(old(self)@),
    {
        self.state.registers.clk = self.state.registers.clk + FieldElement::one();
        self.state.registers.ip = self.state.registers.ip + FieldElement::one();
    }

    /// Appends the registers to the trace.
    fn write_trace(&mut self)
        ensures
            final(self)@ == snapshot(old(self)@),
    {
        self.trace.push(self.state.registers);
    }

    /// Sets ci and ni from program memory at the instruction pointer.
    fn fetch_instructions(&mut self)
        requires
            old(self)@.registers.ip.0 < old(self)@.code.len(),
        ensures
            final(self)@ == with_instructions(
                old(self)@,
                old(self)@.code[old(self)@.registers.ip.0 as int],
                fetch(old(self)@.code, old(self)@.registers.ip.0 + 1),
            ),
    {
        proof {
            assert(self.program.code@.len() == self.program.code.len());
        }
        let ip = self.state.registers.ip.0 as usize;
        self.state.registers.ci = self.program.code[ip];
        self.state.registers.ni = if ip + 1 < self.program.code.len() {
            self.program.code[ip + 1]
        } else {
            FieldElement::zero()
        };
    }

    /// Writes the closing row, with ci = ni = 0, and halts.
    fn finish(&mut self)
        ensures
            final(self)@ == finish_spec(old(self)@),
    {
        self.state.registers.ci = FieldElement::zero();
        self.state.registers.ni = FieldElement::zero();
        self.write_trace();
        self.halted = true;
        self.finished = true;
    }

    /// Runs one clock cycle.
    pub fn step(&mut self) -> (r: Result<(), RuntimeError>)
        requires
            wf_state(old(self)@),
            !old(self)@.halted,
            old(self)@.trace.len() + 1 < MODULUS,
        ensures
            (final(self)@, r) == step_spec(old(self)@),
            wf_state(final(self)@),
            trace_invariants(final(self)@),
    {
        proof {
            lemma_step_wf(self@);
        }
        let len = self.program.code.len();
        if self.trace.len() == 0 {
            if len == 0 {
                self.finish();
                return Ok(());
            }
            self.fetch_instructions();
        } else if self.state.registers.ip.0 as u128 + 1 < len as u128 {
            self.next_clock_cycle();
            self.fetch_instructions();
        } else {
            self.next_clock_cycle();
            self.finish();
            return Ok(());
        }
        self.write_trace();
        match InstructionType::decode(self.state.registers.ci.0) {
            None => {
                self.halted = true;
                Err(RuntimeError::InvalidOpcode)
            },
            Some(ins) => {
                let r = self.execute_instruction(ins);
                if r.is_err() {
                    self.halted = true;
                }
                r
            },
        }
    }

    /// Runs cycles until the program ends, a cycle fails, or `max_cycles` cycles have run.
    pub fn execute(&mut self, max_cycles: u64) -> (r: Result<(), RuntimeError>)
        requires
            wf_state(old(self)@),
            old(self)@.trace.len() + max_cycles + 1 < MODULUS,
        ensures
            (final(self)@, r) == run_spec(old(self)@, max_cycles as nat),
            wf_state(final(self)@),
            trace_invariants(final(self)@),
    {
        let mut n: u64 = 0;
        while !self.halted
            invariant
                wf_state(self@),
                n <= max_cycles,
                self@.trace.len() == old(self)@.trace.len() + n,
                old(self)@.trace.len() + max_cycles + 1 < MODULUS,
                run_spec(self@, (max_cycles - n) as nat) == run_spec(old(self)@, max_cycles as nat),
            decreases max_cycles - n,
        {
            if n == max_cycles {
                return Err(RuntimeError::CycleLimitReached);
            }
            let r = self.step();
            if r.is_err() {
                return r;
            }
            n = n + 1;
        }
        Ok(())
    }

    /// The rows written so far, one per cycle.
    pub fn get_trace(&self) -> (r: Vec<Registers>)
        ensures
            r@ == self@.trace,
    {
        let mut out: Vec<Registers> = Vec::new();
        let mut i: usize = 0;
        while i < self.trace.len()
            invariant
                i <= self.trace@.len(),
                out@ == self.trace@.subrange(0, i as int),
            decreases self.trace@.len() - i,
        {
            out.push(self.trace[i]);
            i = i + 1;
            proof {
                assert(out@ =~= self.trace@.subrange(0, i as int));
            }
        }
        proof {
            assert(self.trace@.subrange(0, i as int) =~= self.trace@);
        }
        out
    }

    /// The bytes written by '.' so far.
    pub fn output(&self) -> (r: &Vec<u8>)
        ensures
            r@ == self@.output,
    {
        &self.io.output
    }

    /// The tape.
    pub fn tape(&self) -> (r: &Vec<FieldElement>)
        ensures
            r@ == self@.ram,
    {
        &self.state.ram
    }

    /// The current registers.
    pub fn registers(&self) -> (r: Registers)
        ensures
            r == self@.registers,
    {
        self.state.registers
    }

    /// Number of rows written so far.
    pub fn cycle_count(&self) -> (r: usize)
        ensures
            r == self@.trace.len(),
    {
        self.trace.len()
    }

    /// No further cycle runs: the program ended or a cycle failed.
    pub fn is_halted(&self) -> (r: bool)
        ensures
            r == self@.halted,
    {
        self.halted
    }

    /// The next cycle dispatches ',' and input holds no unread byte.
    pub fn needs_input(&self) -> (r: bool)
        requires
            wf_state(self@),
        ensures
            r == (!self@.halted && self@.read_pos == self@.input.len() && ({
                let s = self@;
                let len = s.code.len();
                let ip = s.registers.ip.0 as int;
                if s.trace.len() == 0 {
                    len > 0 && s.code[0].0 == 44
                } else {
                    ip + 1 < len && s.code[ip + 1].0 == 44
                }
            })),
    {
        if self.halted || self.io.read_pos < self.io.input.len() {
            return false;
        }
        let len = self.program.code.len();
        if self.trace.len() == 0 {
            len > 0 && self.program.code[0].0 == 44
        } else if self.state.registers.ip.0 as u128 + 1 < len as u128 {
            self.program.code[self.state.registers.ip.0 as usize + 1].0 == 44
        } else {
            false
        }
    }

    /// Appends a byte for ',' to read.
    pub fn push_input(&mut self, byte: u8)
        ensures
            final(self)@ == (MachineState { input: old(self)@.input.push(byte), ..old(self)@ }),
    {
        self.io.input.push(byte);
    }
}

} // verus!
