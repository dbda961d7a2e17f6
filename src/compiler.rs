use vstd::prelude::*;

verus! {

use crate::crypto::field::FieldElement;
use crate::instruction::{InstructionType, is_symbol};

/// The instruction symbols of `src`, in order; every other character is dropped.
pub open spec fn symbols(src: Seq<char>) -> Seq<char>
    decreases src.len(),
{
    if src.len() == 0 {
        Seq::empty()
    } else if is_symbol(src.last()) {
        symbols(src.drop_last()).push(src.last())
    } else {
        symbols(src.drop_last())
    }
}

pub open spec fn is_bracket(c: char) -> bool {
    c == '[' || c == ']'
}

/// Loop nesting depth after the first `i` symbols: opened minus closed brackets.
pub open spec fn depth(s: Seq<char>, i: int) -> int
    decreases i,
{
    if i <= 0 {
        0
    } else {
        depth(s, i - 1) + if s[i - 1] == '[' {
            1int
        } else if s[i - 1] == ']' {
            -1int
        } else {
            0int
        }
    }
}

/// Number of brackets among the first `i` symbols.
pub open spec fn brackets(s: Seq<char>, i: int) -> int
    decreases i,
{
    if i <= 0 {
        0
    } else {
        brackets(s, i - 1) + if is_bracket(s[i - 1]) {
            1int
        } else {
            0int
        }
    }
}

/// Index in program memory of the opcode of symbol `k`: each bracket before it adds a target cell.
pub open spec fn pos(s: Seq<char>, k: int) -> int {
    k + brackets(s, k)
}

/// Every ']' closes an earlier '[' and every '[' is closed.
pub open spec fn balanced(s: Seq<char>) -> bool {
    &&& depth(s, s.len() as int) == 0
    &&& forall|i: int| 0 <= i <= s.len() ==> #[trigger] depth(s, i) >= 0
}

/// The ']' at `m` closes the '[' at `k`.
pub open spec fn closes(s: Seq<char>, k: int, m: int) -> bool {
    &&& 0 <= k < m < s.len()
    &&& s[k] == '['
    &&& s[m] == ']'
    &&& depth(s, m + 1) == depth(s, k)
    &&& forall|j: int| k < j <= m ==> #[trigger] depth(s, j) > depth(s, k)
}

/// `mem` is the program memory of the symbols `s`: one cell per symbol holding its ASCII
/// code, and after each bracket a cell holding its jump target. A '[' targets the cell
/// right after its ']' opcode; a ']' targets the first instruction inside its loop.
pub open spec fn is_layout(s: Seq<char>, mem: Seq<FieldElement>) -> bool {
    &&& mem.len() == s.len() + brackets(s, s.len() as int)
    &&& forall|k: int| 0 <= k < s.len() ==> #[trigger] mem[pos(s, k)].0 == s[k] as int
    &&& forall|k: int, m: int|
        #[trigger] closes(s, k, m) ==> mem[pos(s, k) + 1].0 == pos(s, m) + 1 && mem[pos(s, m)
            + 1].0 == pos(s, k) + 2
}

/// Why a source was refused.
#[derive(Debug, PartialEq, Eq, Structural, Clone, Copy)]
pub enum CompileError {
    /// A bracket without a partner, at this index among the symbols.
    UnbalancedBrackets(usize),
}

/// Compiles source text into program memory.
pub struct Compiler {
    code: Vec<char>,
}

proof fn lemma_pos_step(s: Seq<char>, k: int)
    requires
        0 <= k,
    ensures
        pos(s, k + 1) == pos(s, k) + 1 + if is_bracket(s[k]) {
            1int
        } else {
            0int
        },
{
}

proof fn lemma_pos_increasing(s: Seq<char>, a: int, b: int)
    requires
        0 <= a < b,
    ensures
        0 <= pos(s, a),
        pos(s, a) + 1 + (if is_bracket(s[a]) {
            1int
        } else {
            0int
        }) <= pos(s, b),
    decreases b - a,
{
    lemma_brackets_nonneg(s, a);
    if b > a + 1 {
        lemma_pos_increasing(s, a, b - 1);
    }
}

proof fn lemma_brackets_nonneg(s: Seq<char>, i: int)
    ensures
        brackets(s, i) >= 0,
    decreases i,
{
    if i > 0 {
        lemma_brackets_nonneg(s, i - 1);
    }
}

impl Compiler {
    /// The instruction symbols that `compile` works on.
    pub closed spec fn view(&self) -> Seq<char> {
        self.code@
    }

    /// Keeps the instruction symbols of `code` and drops every other character.
    pub fn new(code: String) -> (r: Self)
        ensures
            r.view() == symbols(code@),
            r.wf(),
    {
        let text = code.as_str();
        let n = text.unicode_len();
        let mut kept: Vec<char> = Vec::new();
        let mut i: usize = 0;
        while i < n
            invariant
                n == code@.len(),
                text@ == code@,
                i <= n,
                kept@ == symbols(code@.subrange(0, i as int)),
                forall|j: int| 0 <= j < kept@.len() ==> is_symbol(#[trigger] kept@[j]),
            decreases n - i,
        {
            let c = text.get_char(i);
            proof {
                let pre = code@.subrange(0, i as int + 1);
                assert(pre.drop_last() =~= code@.subrange(0, i as int));
                assert(pre.last() == c);
            }
            if InstructionType::from_char(c).is_some() {
                kept.push(c);
            }
            i = i + 1;
        }
        proof {
            assert(code@.subrange(0, n as int) =~= code@);
        }
        Compiler { code: kept }
    }

    /// Every character kept is an instruction symbol.
    pub open spec fn wf(&self) -> bool {
        forall|i: int| 0 <= i < self.view().len() ==> is_symbol(#[trigger] self.view()[i])
    }

    /// Program memory for the symbols, or the place of a bracket without a partner.
    pub fn compile(&self) -> (r: Result<Vec<FieldElement>, CompileError>)
        requires
            self.wf(),
        ensures
            match r {
                Ok(mem) => {
                    &&& balanced(self.view())
                    &&& is_layout(self.view(), mem@)
                    &&& forall|i: int|
                        0 <= i < mem@.len() ==> (#[trigger] mem@[i]).0 <= 93 || mem@[i].0
                            <= mem@.len()
                },
                Err(CompileError::UnbalancedBrackets(i)) => {
                    let s = self.view();
                    &&& !balanced(s)
                    &&& i < s.len()
                    &&& forall|j: int| 0 <= j <= i ==> #[trigger] depth(s, j) >= 0
                    &&& (s[i as int] == ']' && depth(s, i + 1) < 0) || (s[i as int] == '['
                        && forall|t: int| i < t <= s.len() ==> #[trigger] depth(s, t) > depth(
                        s,
                        i as int,
                    ))
                },
            },
    {
        let ghost s = self.view();
        let n = self.code.len();
        let mut program: Vec<FieldElement> = Vec::new();
        let mut loop_stack: Vec<usize> = Vec::new();
        let mut loop_opens: Vec<usize> = Vec::new();
        let mut k: usize = 0;
        while k < n
            invariant
                s == self.code@,
                n == s.len(),
                self.wf(),
                k <= n,
                forall|i: int| 0 <= i <= k ==> #[trigger] depth(s, i) >= 0,
                loop_stack.len() == depth(s, k as int),
                loop_opens.len() == loop_stack.len(),
                program.len() == pos(s, k as int),
                forall|i: int|
                    0 <= i < program@.len() ==> (#[trigger] program@[i]).0 <= 93 || program@[i].0
                        <= program@.len(),
                forall|j: int| 0 <= j < k ==> #[trigger] program@[pos(s, j)].0 == s[j] as int,
                forall|d: int|
                    0 <= d < loop_opens.len() ==> {
                        &&& #[trigger] loop_opens@[d] < k
                        &&& s[loop_opens@[d] as int] == '['
                        &&& loop_stack@[d] == pos(s, loop_opens@[d] as int) + 1
                        &&& depth(s, loop_opens@[d] as int) == d
                        &&& forall|t: int| loop_opens@[d] < t <= k ==> #[trigger] depth(s, t) > d
                    },
                forall|j: int, m: int|
                    #[trigger] closes(s, j, m) && m < k ==> program@[pos(s, j) + 1].0 == pos(s, m)
                        + 1 && program@[pos(s, m) + 1].0 == pos(s, j) + 2,
            decreases n - k,
        {
            let symbol = self.code[k];
            proof {
                assert(self.view()[k as int] == s[k as int]);
                lemma_pos_step(s, k as int);
            }
            let opcode = InstructionType::from_char(symbol).unwrap().opcode() as u64;
            if symbol == ']' && loop_stack.len() == 0 {
                proof {
                    assert(depth(s, k + 1) < 0);
                }
                return Err(CompileError::UnbalancedBrackets(k));
            }
            let ghost old_program = program@;
            let ghost old_stack = loop_stack@;
            let ghost old_opens = loop_opens@;
            program.push(FieldElement(opcode));
            if symbol == '[' {
                program.push(FieldElement(0));
                loop_stack.push(program.len() - 1);
                loop_opens.push(k);
                proof {
                    assert(program@ == old_program.push(FieldElement(opcode)).push(FieldElement(0)));
                    assert(program@[old_program.len() as int].0 == symbol as int);
                }
            } else if symbol != ']' {
                proof {
                    assert(program@ == old_program.push(FieldElement(opcode)));
                }
            } else {
                let start_pos = loop_stack.pop().unwrap();
                let _ = loop_opens.pop();
                let ghost o = old_opens.last() as int;
                proof {
                    lemma_pos_increasing(s, o, k as int);
                    assert(old_opens[old_opens.len() - 1] == o);
                    assert(start_pos == pos(s, o) + 1);
                }
                let loop_end_pos = program.len();
                program.set(start_pos, FieldElement(loop_end_pos as u64));
                program.push(FieldElement((start_pos + 1) as u64));
                proof {
                    assert(program@.len() == old_program.len() + 2);
                    assert forall|i: int|
                        0 <= i < old_program.len() && i != old_stack.last() implies #[trigger] program@[i]
                            == old_program[i] by {}
                    let d = old_opens.len() - 1;
                    assert(depth(s, o) == d);
                    assert(depth(s, k as int + 1) == d);
                    assert(closes(s, o, k as int));
                    assert forall|j: int, m: int| #[trigger] closes(s, j, m) && m < k + 1 implies
                        program@[pos(s, j) + 1].0 == pos(s, m) + 1 && program@[pos(s, m) + 1].0
                        == pos(s, j) + 2 by {
                        if m == k {
                            if j < o {
                                assert(depth(s, o) > depth(s, j));
                            } else if j > o {
                                assert(depth(s, j) > d);
                            }
                        } else {
                            assert(old_program[pos(s, j) + 1].0 == pos(s, m) + 1);
                            assert(old_program[pos(s, m) + 1].0 == pos(s, j) + 2);
                            lemma_pos_increasing(s, m, k as int);
                            lemma_pos_increasing(s, j, m);
                            if j == o {
                                assert(depth(s, m + 1) > depth(s, o));
                            }
                            if o < j {
                                lemma_pos_increasing(s, o, j);
                            } else if j < o {
                                lemma_pos_increasing(s, j, o);
                            }
                            if o < m {
                                lemma_pos_increasing(s, o, m);
                            } else {
                                lemma_pos_increasing(s, m, o);
                            }
                        }
                    }
                }
            }
            proof {
                assert forall|j: int| 0 <= j < k + 1 implies #[trigger] program@[pos(s, j)].0
                    == s[j] as int by {
                    if j < k {
                        lemma_pos_increasing(s, j, k as int);
                        assert(old_program[pos(s, j)].0 == s[j] as int);
                        if symbol == ']' {
                            let o = old_opens.last() as int;
                            let d = old_opens.len() - 1;
                            assert(old_opens[d] == o);
                            assert(old_stack[d] == pos(s, o) + 1);
                            if j < o {
                                lemma_pos_increasing(s, j, o);
                            } else if o < j {
                                lemma_pos_increasing(s, o, j);
                            }
                            assert(program@[pos(s, j)] == old_program[pos(s, j)]);
                        }
                    } else {
                        assert(pos(s, j) == old_program.len());
                    }
                }
                if symbol != ']' {
                    assert forall|j: int, m: int| #[trigger] closes(s, j, m) && m < k + 1 implies
                        program@[pos(s, j) + 1].0 == pos(s, m) + 1 && program@[pos(s, m) + 1].0
                        == pos(s, j) + 2 by {
                        lemma_pos_increasing(s, m, k as int);
                        lemma_pos_increasing(s, j, k as int);
                        assert(old_program[pos(s, j) + 1].0 == pos(s, m) + 1);
                        assert(old_program[pos(s, m) + 1].0 == pos(s, j) + 2);
                    }
                }
            }
            k = k + 1;
        }
        if loop_opens.len() > 0 {
            let open_at = loop_opens[loop_opens.len() - 1];
            return Err(CompileError::UnbalancedBrackets(open_at));
        }
        Ok(program)
    }
}

/// Number of '[' among the first `i` symbols.
pub open spec fn loop_count(s: Seq<char>, i: int) -> int
    decreases i,
{
    if i <= 0 {
        0
    } else {
        loop_count(s, i - 1) + if s[i - 1] == '[' {
            1int
        } else {
            0int
        }
    }
}

proof fn lemma_brackets_depth(s: Seq<char>, i: int)
    ensures
        brackets(s, i) == 2 * loop_count(s, i) - depth(s, i),
    decreases i,
{
    if i > 0 {
        lemma_brackets_depth(s, i - 1);
    }
}

/// Compiled length: one cell per symbol plus two target cells per loop.
pub proof fn lemma_compiled_length(s: Seq<char>, mem: Seq<FieldElement>)
    requires
        balanced(s),
        is_layout(s, mem),
    ensures
        mem.len() == s.len() + 2 * loop_count(s, s.len() as int),
{
    lemma_brackets_depth(s, s.len() as int);
}

proof fn lemma_find_close(s: Seq<char>, k: int, j: int) -> (m: int)
    requires
        balanced(s),
        0 <= k < s.len(),
        s[k] == '[',
        k < j <= s.len(),
        forall|t: int| k < t <= j ==> #[trigger] depth(s, t) > depth(s, k),
    ensures
        closes(s, k, m),
    decreases s.len() - j,
{
    assert(depth(s, k) >= 0);
    if j == s.len() {
        assert(false);
        0
    } else if depth(s, j + 1) <= depth(s, k) {
        assert(depth(s, j) > depth(s, k));
        assert(s[j] == ']');
        assert forall|t: int| k < t <= j implies #[trigger] depth(s, t) > depth(s, k) by {}
        j
    } else {
        lemma_find_close(s, k, j + 1)
    }
}

/// In a balanced program every '[' has the ']' that closes it.
pub proof fn lemma_open_is_closed(s: Seq<char>, k: int) -> (m: int)
    requires
        balanced(s),
        0 <= k < s.len(),
        s[k] == '[',
    ensures
        closes(s, k, m),
{
    lemma_find_close(s, k, k + 1)
}

/// Jump targets pair up: the target t of a '[' opcode at index i points just past a ']'
/// opcode (at t - 1), whose own target, stored at t, is i + 2, the first cell of the loop body.
pub proof fn lemma_jump_targets(s: Seq<char>, mem: Seq<FieldElement>, k: int)
    requires
        balanced(s),
        is_layout(s, mem),
        0 <= k < s.len(),
        s[k] == '[',
    ensures
        ({
            let i = pos(s, k);
            let t = mem[i + 1].0 as int;
            &&& mem[i].0 == '[' as int
            &&& mem[t - 1].0 == ']' as int
            &&& mem[t].0 == i + 2
        }),
{
    let m = lemma_open_is_closed(s, k);
    assert(closes(s, k, m));
    assert(mem[pos(s, m)].0 == s[m] as int);
    assert(mem[pos(s, k)].0 == s[k] as int);
}

/// Filtering is idempotent, so a source and its filtered form compile alike.
pub proof fn lemma_symbols_idempotent(src: Seq<char>)
    ensures
        symbols(symbols(src)) == symbols(src),
    decreases src.len(),
{
    if src.len() > 0 {
        lemma_symbols_idempotent(src.drop_last());
        if is_symbol(src.last()) {
            let f = symbols(src.drop_last()).push(src.last());
            assert(f.drop_last() =~= symbols(src.drop_last()));
        }
    }
}

proof fn lemma_find_open(s: Seq<char>, m: int, j: int) -> (k: int)
    requires
        balanced(s),
        0 <= m < s.len(),
        s[m] == ']',
        0 <= j <= m,
        forall|t: int| j < t <= m ==> #[trigger] depth(s, t) > depth(s, m + 1),
    ensures
        closes(s, k, m),
    decreases j,
{
    assert(depth(s, m + 1) >= 0);
    if depth(s, j) <= depth(s, m + 1) {
        if j == m {
            assert(depth(s, m + 1) == depth(s, m) - 1);
            assert(false);
        }
        assert(depth(s, j + 1) > depth(s, m + 1));
        assert(s[j] == '[');
        assert forall|t: int| j < t <= m implies #[trigger] depth(s, t) > depth(s, j) by {}
        j
    } else {
        assert(j > 0);
        lemma_find_open(s, m, j - 1)
    }
}

/// In a balanced program every ']' closes some '['.
pub proof fn lemma_close_has_open(s: Seq<char>, m: int) -> (k: int)
    requires
        balanced(s),
        0 <= m < s.len(),
        s[m] == ']',
    ensures
        closes(s, k, m),
{
    assert(depth(s, m + 1) == depth(s, m) - 1);
    lemma_find_open(s, m, m)
}

proof fn lemma_cells_covered(s: Seq<char>, k: int, i: int) -> (j: int)
    requires
        0 <= k,
        0 <= i < pos(s, k),
    ensures
        0 <= j < k,
        i == pos(s, j) || (is_bracket(s[j]) && i == pos(s, j) + 1),
    decreases k,
{
    lemma_pos_step(s, k - 1);
    if i < pos(s, k - 1) {
        lemma_cells_covered(s, k - 1, i)
    } else {
        k - 1
    }
}

/// A balanced program has exactly one layout: compiled memory is a function of the symbols.
pub proof fn lemma_layout_unique(s: Seq<char>, m1: Seq<FieldElement>, m2: Seq<FieldElement>)
    requires
        balanced(s),
        is_layout(s, m1),
        is_layout(s, m2),
    ensures
        m1 == m2,
{
    assert forall|i: int| 0 <= i < m1.len() implies #[trigger] m1[i] == m2[i] by {
        lemma_brackets_nonneg(s, s.len() as int);
        let j = lemma_cells_covered(s, s.len() as int, i);
        if i != pos(s, j) {
            if s[j] == '[' {
                let m = lemma_open_is_closed(s, j);
                assert(closes(s, j, m));
                assert(m1[pos(s, j) + 1].0 == m2[pos(s, j) + 1].0);
            } else {
                let k = lemma_close_has_open(s, j);
                assert(closes(s, k, j));
                assert(m1[pos(s, j) + 1].0 == m2[pos(s, j) + 1].0);
            }
        } else {
            assert(m1[pos(s, j)].0 == s[j] as int);
            assert(m2[pos(s, j)].0 == s[j] as int);
        }
        assert(m1[i].0 == m2[i].0);
    }
    assert(m1 =~= m2);
}

/// Compiling a source and compiling its filtered form give the same memory.
pub proof fn lemma_compile_filtered(src: Seq<char>, m1: Seq<FieldElement>, m2: Seq<FieldElement>)
    requires
        balanced(symbols(src)),
        is_layout(symbols(src), m1),
        is_layout(symbols(symbols(src)), m2),
    ensures
        m1 == m2,
{
    lemma_symbols_idempotent(src);
    lemma_layout_unique(symbols(src), m1, m2);
}

} // verus!
