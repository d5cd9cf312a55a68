use vstd::prelude::*;
use vstd::string::StrSliceExecFns;
use vstd::utf8::encode_utf8;

use crate::lexer::Annotation;
use crate::lexer::Location;
use crate::lexer::Token;
use crate::lexer::TokenKind;

verus! {

/// Why a run was cut short. Every error carries the location of the
/// offending token.
#[derive(Debug, Clone, Copy, PartialEq, Eq, Hash)]
pub enum InterpreterErrorKind {
    /// A forward bracket has no matching backward bracket; reported at the
    /// earliest unmatched forward bracket.
    UnmatchedJumpForwardError,
    /// A backward bracket has no matching forward bracket; reported at
    /// that backward bracket.
    UnmatchedJumpBackwardError,
    /// The data pointer would move below index 0.
    PointerError,
    /// An input instruction found the input channel exhausted.
    InputError,
    /// The run used up the interpreter's step budget of `STEP_BUDGET`
    /// instruction dispatches; reported at the instruction that was about
    /// to execute.
    StepLimitError,
}

/// An error kind together with the source location it arose at.
pub type InterpreterError = Annotation<InterpreterErrorKind>;

/// How many instruction dispatches a single `eval` call may make before
/// it gives up with `StepLimitError`.
pub const STEP_BUDGET: u64 = u64::MAX;

/// The state of the left-to-right bracket scan after some prefix of the
/// program: either still scanning, with the positions of the pending
/// forward brackets (innermost last) and the pairs matched so far, or
/// already failed on a backward bracket that had no partner.
#[verifier::ext_equal]
pub enum ScanState {
    Scanning { stack: Seq<int>, table: Map<int, int> },
    FailedBackward { pos: int },
}

/// The bracket scan over the first `n` tokens of `prog`: forward brackets
/// are stacked, a backward bracket pops its partner and records the pair
/// in both directions, and a backward bracket with an empty stack fails
/// the scan for good.
pub open spec fn scan_brackets(prog: Seq<Token>, n: int) -> ScanState
    decreases n,
{
    if n <= 0 {
        ScanState::Scanning { stack: Seq::empty(), table: Map::empty() }
    } else {
        let prev = scan_brackets(prog, n - 1);
        match prev {
            ScanState::FailedBackward { pos } => prev,
            ScanState::Scanning { stack, table } => {
                let k = n - 1;
                if prog[k].value is JumpForward {
                    ScanState::Scanning { stack: stack.push(k), table }
                } else if prog[k].value is JumpBackward {
                    if stack.len() == 0 {
                        ScanState::FailedBackward { pos: k }
                    } else {
                        ScanState::Scanning {
                            stack: stack.drop_last(),
                            table: table.insert(stack.last(), k).insert(k, stack.last()),
                        }
                    }
                } else {
                    prev
                }
            }
        }
    }
}

/// The bracket scan of the whole program.
pub open spec fn bracket_scan(prog: Seq<Token>) -> ScanState {
    scan_brackets(prog, prog.len() as int)
}

/// The error the bracket scan reports, if any: an unmatched backward
/// bracket at its own location, or an unmatched forward bracket at the
/// earliest pending one.
pub open spec fn bracket_error(prog: Seq<Token>) -> Option<InterpreterError> {
    match bracket_scan(prog) {
        ScanState::FailedBackward { pos } => Some(
            Annotation {
                value: InterpreterErrorKind::UnmatchedJumpBackwardError,
                location: prog[pos].location,
            },
        ),
        ScanState::Scanning { stack, table } => {
            if stack.len() > 0 {
                Some(
                    Annotation {
                        value: InterpreterErrorKind::UnmatchedJumpForwardError,
                        location: prog[stack[0]].location,
                    },
                )
            } else {
                None
            }
        }
    }
}

/// Whether every bracket of the program is matched.
pub open spec fn well_formed(prog: Seq<Token>) -> bool {
    bracket_error(prog) is None
}

/// The jump table of a well-formed program: each bracket position maps to
/// its partner's position.
pub open spec fn jump_table_of(prog: Seq<Token>) -> Map<int, int> {
    match bracket_scan(prog) {
        ScanState::Scanning { stack, table } => table,
        ScanState::FailedBackward { pos } => Map::empty(),
    }
}

/// A cell value after an 8-bit wraparound increment.
pub open spec fn wrap_inc(b: u8) -> u8 {
    if b == 255 {
        0u8
    } else {
        (b + 1) as u8
    }
}

/// A cell value after an 8-bit wraparound decrement.
pub open spec fn wrap_dec(b: u8) -> u8 {
    if b == 0 {
        255u8
    } else {
        (b - 1) as u8
    }
}

/// Whether the machine is still running, finished, or stopped on an error.
pub enum Status {
    Running,
    Done,
    Failed { kind: InterpreterErrorKind, location: Location },
}

/// The mathematical state of the executing machine: data pointer, tape,
/// program counter, how much of the input channel was consumed, and the
/// bytes written to the output channel so far.
#[verifier::ext_equal]
pub struct MachineState {
    pub pointer: nat,
    pub tape: Seq<u8>,
    pub pc: nat,
    pub in_pos: nat,
    pub output: Seq<u8>,
    pub status: Status,
}

/// One dispatch of the machine. A halted state is absorbing. Running with
/// the program counter past the end finishes the run; otherwise the
/// instruction under the counter is applied:
/// - a forward pointer move grows the tape by exactly one zero cell when
///   the pointer passes the current end, and never fails;
/// - a backward pointer move at pointer 0 fails with `PointerError`;
/// - increment and decrement wrap the cell around 8 bits;
/// - output appends the cell to the output channel;
/// - input stores the next input byte, or fails with `InputError` when
///   the channel is exhausted;
/// - a bracket either falls through (counter + 1) or moves the counter to
///   its partner's position, as its condition on the cell decides.
pub open spec fn step(
    prog: Seq<Token>,
    table: Map<int, int>,
    input: Seq<u8>,
    s: MachineState,
) -> MachineState {
    if !(s.status is Running) {
        s
    } else if s.pc >= prog.len() {
        MachineState { status: Status::Done, ..s }
    } else {
        let t = prog[s.pc as int];
        let cell = s.tape[s.pointer as int];
        match t.value {
            TokenKind::IncrementPointer => {
                let moved = s.pointer + 1;
                let grown = if s.tape.len() <= moved {
                    s.tape.push(0u8)
                } else {
                    s.tape
                };
                MachineState { pointer: moved, tape: grown, pc: s.pc + 1, ..s }
            }
            TokenKind::DecrementPointer => {
                if s.pointer == 0 {
                    MachineState {
                        status: Status::Failed {
                            kind: InterpreterErrorKind::PointerError,
                            location: t.location,
                        },
                        ..s
                    }
                } else {
                    MachineState { pointer: (s.pointer - 1) as nat, pc: s.pc + 1, ..s }
                }
            }
            TokenKind::Increment => MachineState {
                tape: s.tape.update(s.pointer as int, wrap_inc(cell)),
                pc: s.pc + 1,
                ..s
            },
            TokenKind::Decrement => MachineState {
                tape: s.tape.update(s.pointer as int, wrap_dec(cell)),
                pc: s.pc + 1,
                ..s
            },
            TokenKind::Output => MachineState { output: s.output.push(cell), pc: s.pc + 1, ..s },
            TokenKind::Input => {
                if s.in_pos < input.len() {
                    MachineState {
                        tape: s.tape.update(s.pointer as int, input[s.in_pos as int]),
                        in_pos: s.in_pos + 1,
                        pc: s.pc + 1,
                        ..s
                    }
                } else {
                    MachineState {
                        status: Status::Failed {
                            kind: InterpreterErrorKind::InputError,
                            location: t.location,
                        },
                        ..s
                    }
                }
            }
            TokenKind::JumpForward => {
                if cell != 0 {
                    MachineState { pc: s.pc + 1, ..s }
                } else {
                    MachineState { pc: table[s.pc as int] as nat, ..s }
                }
            }
            TokenKind::JumpBackward => {
                if cell == 0 {
                    MachineState { pc: s.pc + 1, ..s }
                } else {
                    MachineState { pc: table[s.pc as int] as nat, ..s }
                }
            }
        }
    }
}

/// `n` dispatches of the machine in a row.
pub open spec fn steps(
    prog: Seq<Token>,
    table: Map<int, int>,
    input: Seq<u8>,
    s: MachineState,
    n: nat,
) -> MachineState
    decreases n,
{
    if n == 0 {
        s
    } else {
        steps(prog, table, input, step(prog, table, input, s), (n - 1) as nat)
    }
}

/// Whether the machine can go from `from` to `to` in some number of
/// dispatches, under the program's own jump table.
pub open spec fn reaches(
    prog: Seq<Token>,
    input: Seq<u8>,
    from: MachineState,
    to: MachineState,
) -> bool {
    exists|n: nat| steps(prog, jump_table_of(prog), input, from, n) == to
}

proof fn lemma_steps_succ(
    prog: Seq<Token>,
    table: Map<int, int>,
    input: Seq<u8>,
    s: MachineState,
    n: nat,
)
    ensures
        steps(prog, table, input, s, n + 1) == step(
            prog,
            table,
            input,
            steps(prog, table, input, s, n),
        ),
    decreases n,
{
    if n == 0 {
        assert(steps(prog, table, input, s, 1) == steps(
            prog,
            table,
            input,
            step(prog, table, input, s),
            0,
        ));
    } else {
        let s1 = step(prog, table, input, s);
        lemma_steps_succ(prog, table, input, s1, (n - 1) as nat);
        assert(steps(prog, table, input, s, n + 1) == steps(prog, table, input, s1, n));
        assert(steps(prog, table, input, s, n) == steps(prog, table, input, s1, (n - 1) as nat));
    }
}

proof fn lemma_steps_add(
    prog: Seq<Token>,
    table: Map<int, int>,
    input: Seq<u8>,
    s: MachineState,
    m: nat,
    k: nat,
)
    ensures
        steps(prog, table, input, s, m + k) == steps(
            prog,
            table,
            input,
            steps(prog, table, input, s, m),
            k,
        ),
    decreases m,
{
    if m > 0 {
        let s1 = step(prog, table, input, s);
        lemma_steps_add(prog, table, input, s1, (m - 1) as nat, k);
        assert(steps(prog, table, input, s, m + k) == steps(
            prog,
            table,
            input,
            s1,
            ((m - 1) + k) as nat,
        ));
    }
}

proof fn lemma_halted_absorbing(
    prog: Seq<Token>,
    table: Map<int, int>,
    input: Seq<u8>,
    s: MachineState,
    n: nat,
)
    requires
        !(s.status is Running),
    ensures
        steps(prog, table, input, s, n) == s,
    decreases n,
{
    if n > 0 {
        lemma_halted_absorbing(prog, table, input, s, (n - 1) as nat);
    }
}

/// Law: the machine is deterministic and a halted state is final, so from
/// a given start at most one halted state can ever be reached — the
/// outcome a run reports is the only one its program, input and starting
/// state allow.
pub proof fn lemma_halted_state_unique(
    prog: Seq<Token>,
    input: Seq<u8>,
    from: MachineState,
    a: MachineState,
    b: MachineState,
)
    requires
        reaches(prog, input, from, a),
        reaches(prog, input, from, b),
        !(a.status is Running),
        !(b.status is Running),
    ensures
        a == b,
{
    let table = jump_table_of(prog);
    let na = choose|n: nat| steps(prog, table, input, from, n) == a;
    let nb = choose|n: nat| steps(prog, table, input, from, n) == b;
    if na <= nb {
        lemma_steps_add(prog, table, input, from, na, (nb - na) as nat);
        lemma_halted_absorbing(prog, table, input, a, (nb - na) as nat);
        assert(na + (nb - na) as nat == nb);
    } else {
        lemma_steps_add(prog, table, input, from, nb, (na - nb) as nat);
        lemma_halted_absorbing(prog, table, input, b, (na - nb) as nat);
        assert(nb + (na - nb) as nat == na);
    }
}

/// Everything the bracket scan guarantees after `n` tokens while it has
/// not failed: the pending stack holds increasing forward-bracket
/// positions not yet matched, and the table so far is a symmetric,
/// self-inverse pairing of a forward bracket with a later backward one,
/// covering every bracket position already passed.
spec fn scan_ok_inv(prog: Seq<Token>, n: int, stack: Seq<int>, table: Map<int, int>) -> bool {
    &&& (forall|j: int| 0 <= j < stack.len() ==> 0 <= #[trigger] stack[j] < n)
    &&& (forall|j: int| 0 <= j < stack.len() ==> prog[#[trigger] stack[j]].value is JumpForward)
    &&& (forall|j: int| 0 <= j < stack.len() ==> !table.contains_key(#[trigger] stack[j]))
    &&& (forall|j1: int, j2: int|
        0 <= j1 < j2 < stack.len() ==> #[trigger] stack[j1] < #[trigger] stack[j2])
    &&& (forall|k: int| #[trigger] table.contains_key(k) ==> {
        &&& 0 <= k < n
        &&& table.contains_key(table[k])
        &&& table[table[k]] == k
        &&& table[k] != k
        &&& (prog[k].value is JumpForward <==> k < table[k])
        &&& (prog[k].value is JumpForward || prog[k].value is JumpBackward)
    })
    &&& (forall|j: int|
        0 <= j < n && (prog[j].value is JumpForward || prog[j].value is JumpBackward)
            ==> table.contains_key(j) || stack.contains(j))
}

proof fn lemma_scan_invariant(prog: Seq<Token>, n: int)
    requires
        0 <= n <= prog.len(),
    ensures
        match scan_brackets(prog, n) {
            ScanState::Scanning { stack, table } => scan_ok_inv(prog, n, stack, table),
            ScanState::FailedBackward { pos } => 0 <= pos < n && prog[pos].value is JumpBackward,
        },
    decreases n,
{
    if n <= 0 {
    } else {
        lemma_scan_invariant(prog, n - 1);
        let k = n - 1;
        match scan_brackets(prog, n - 1) {
            ScanState::FailedBackward { pos } => {}
            ScanState::Scanning { stack, table } => {
                if prog[k].value is JumpForward {
                    let stack2 = stack.push(k);
                    assert(scan_brackets(prog, n) == ScanState::Scanning {
                        stack: stack2,
                        table,
                    });
                    assert(stack2[stack.len() as int] == k);
                    assert forall|j: int|
                        0 <= j < n && (prog[j].value is JumpForward
                            || prog[j].value is JumpBackward) implies table.contains_key(j)
                        || stack2.contains(j) by {
                        if j == k {
                            assert(stack2.contains(k));
                        } else if !table.contains_key(j) {
                            assert(stack.contains(j));
                            let idx = choose|idx: int| 0 <= idx < stack.len() && stack[idx] == j;
                            assert(stack2[idx] == j);
                            assert(stack2.contains(j));
                        }
                    }
                } else if prog[k].value is JumpBackward {
                    if stack.len() == 0 {
                    } else {
                        let f = stack.last();
                        let stack2 = stack.drop_last();
                        let table2 = table.insert(f, k).insert(k, f);
                        assert(scan_brackets(prog, n) == ScanState::Scanning {
                            stack: stack2,
                            table: table2,
                        });
                        assert(stack[stack.len() - 1] == f);
                        assert(0 <= f < n - 1);
                        assert(prog[f].value is JumpForward);
                        assert(!table.contains_key(f));
                        assert(!table.contains_key(k));
                        assert forall|k0: int| #[trigger] table2.contains_key(k0) implies {
                            &&& 0 <= k0 < n
                            &&& table2.contains_key(table2[k0])
                            &&& table2[table2[k0]] == k0
                            &&& table2[k0] != k0
                            &&& (prog[k0].value is JumpForward <==> k0 < table2[k0])
                            &&& (prog[k0].value is JumpForward || prog[k0].value is JumpBackward)
                        } by {
                            if k0 == k {
                                assert(table2[k] == f);
                                assert(table2[f] == k);
                            } else if k0 == f {
                                assert(table2[f] == k);
                                assert(table2[k] == f);
                            } else {
                                assert(table.contains_key(k0));
                                assert(table2[k0] == table[k0]);
                                assert(table.contains_key(table[k0]));
                                assert(table[k0] != f);
                                assert(table[k0] != k);
                                assert(table2[table[k0]] == table[table[k0]]);
                            }
                        }
                        assert forall|j: int| 0 <= j < stack2.len() implies !table2.contains_key(
                            #[trigger] stack2[j],
                        ) by {
                            assert(stack2[j] == stack[j]);
                            assert(stack[j] < stack[stack.len() - 1]);
                            assert(stack[j] != f);
                            assert(stack[j] < k);
                        }
                        assert forall|j: int|
                            0 <= j < n && (prog[j].value is JumpForward
                                || prog[j].value is JumpBackward) implies table2.contains_key(j)
                            || stack2.contains(j) by {
                            if j == k || j == f {
                                assert(table2.contains_key(j));
                            } else if j < n - 1 && !table.contains_key(j) {
                                assert(stack.contains(j));
                                let idx = choose|idx: int|
                                    0 <= idx < stack.len() && stack[idx] == j;
                                if idx == stack.len() - 1 {
                                    assert(j == f);
                                } else {
                                    assert(stack2[idx] == j);
                                    assert(stack2.contains(j));
                                }
                            }
                        }
                    }
                } else {
                }
            }
        }
    }
}

proof fn lemma_scan_failed_absorbing(prog: Seq<Token>, m: int, n: int)
    requires
        0 <= m <= n,
        scan_brackets(prog, m) is FailedBackward,
    ensures
        scan_brackets(prog, n) == scan_brackets(prog, m),
    decreases n - m,
{
    if m < n {
        lemma_scan_failed_absorbing(prog, m, n - 1);
    }
}

/// What the jump table of a well-formed program guarantees: every bracket
/// position is matched, every matched position lies in the program, the
/// pairing is self-inverse, and a forward bracket is paired with a later
/// backward one.
pub proof fn lemma_well_formed_table(prog: Seq<Token>)
    requires
        well_formed(prog),
    ensures
        forall|k: int| #[trigger] jump_table_of(prog).contains_key(k) ==> {
            &&& 0 <= k < prog.len()
            &&& jump_table_of(prog).contains_key(jump_table_of(prog)[k])
            &&& jump_table_of(prog)[jump_table_of(prog)[k]] == k
            &&& jump_table_of(prog)[k] != k
            &&& (prog[k].value is JumpForward <==> k < jump_table_of(prog)[k])
            &&& (prog[k].value is JumpForward || prog[k].value is JumpBackward)
        },
        forall|j: int|
            0 <= j < prog.len() && (prog[j].value is JumpForward
                || prog[j].value is JumpBackward) ==> jump_table_of(prog).contains_key(j),
{
    lemma_scan_invariant(prog, prog.len() as int);
    match bracket_scan(prog) {
        ScanState::Scanning { stack, table } => {
            assert(stack.len() == 0);
            assert(jump_table_of(prog) == table);
            assert forall|j: int|
                0 <= j < prog.len() && (prog[j].value is JumpForward
                    || prog[j].value is JumpBackward) implies jump_table_of(prog).contains_key(
                j,
            ) by {
                assert(table.contains_key(j) || stack.contains(j));
                assert(!stack.contains(j));
            }
        }
        ScanState::FailedBackward { pos } => {
            assert(false);
        }
    }
}

/// Law: bracket resolution is a perfect involution. In a well-formed
/// program every bracket position is in the jump table, and following the
/// table twice from any matched position leads straight back to it:
/// for a matched pair (f, b), table[f] == b and table[b] == f.
pub proof fn lemma_jump_table_involution(prog: Seq<Token>)
    requires
        well_formed(prog),
    ensures
        forall|f: int| #[trigger] jump_table_of(prog).contains_key(f) ==> {
            &&& jump_table_of(prog).contains_key(jump_table_of(prog)[f])
            &&& jump_table_of(prog)[jump_table_of(prog)[f]] == f
        },
        forall|j: int|
            0 <= j < prog.len() && (prog[j].value is JumpForward
                || prog[j].value is JumpBackward) ==> jump_table_of(prog).contains_key(j),
{
    lemma_well_formed_table(prog);
}

/// Law: moving the pointer backward from index 0 fails with
/// `PointerError` at that token, and moving it backward from anywhere
/// else just moves it; moving the pointer forward never fails, and grows
/// the tape by exactly one zero cell precisely when the pointer passes
/// the current end of the tape.
pub proof fn lemma_step_pointer_moves(
    prog: Seq<Token>,
    table: Map<int, int>,
    input: Seq<u8>,
    s: MachineState,
)
    requires
        s.status is Running,
        s.pc < prog.len(),
    ensures
        prog[s.pc as int].value is DecrementPointer && s.pointer == 0 ==> step(
            prog,
            table,
            input,
            s,
        ).status == (Status::Failed {
            kind: InterpreterErrorKind::PointerError,
            location: prog[s.pc as int].location,
        }),
        prog[s.pc as int].value is DecrementPointer && s.pointer > 0 ==> step(
            prog,
            table,
            input,
            s,
        ) == (MachineState { pointer: (s.pointer - 1) as nat, pc: s.pc + 1, ..s }),
        prog[s.pc as int].value is IncrementPointer ==> {
            let next = step(prog, table, input, s);
            &&& next.status is Running
            &&& next.pointer == s.pointer + 1
            &&& (s.tape.len() <= s.pointer + 1 ==> next.tape == s.tape.push(0u8))
            &&& (s.tape.len() > s.pointer + 1 ==> next.tape == s.tape)
        },
{
}

/// Law: the cells wrap around 8 bits — incrementing a cell holding 255
/// yields 0, decrementing a cell holding 0 yields 255, and every other
/// increment or decrement moves the value by one.
pub proof fn lemma_cell_wraparound()
    ensures
        wrap_inc(255u8) == 0u8,
        wrap_dec(0u8) == 255u8,
        forall|b: u8| b != 255 ==> wrap_inc(b) == b + 1,
        forall|b: u8| b != 0 ==> wrap_dec(b) == b - 1,
{
}

/// The tape-based interpreter: a data pointer into a growable tape of
/// byte cells, a program counter into the token sequence, an injected
/// input channel consumed one byte per input instruction, an output
/// channel the run appends to, and the jump table built for the current
/// program.
pub struct SimpleInterpreter {
    pub pointer: usize,
    pub program_cursor: usize,
    pub cells: Vec<u8>,
    pub program: Vec<Token>,
    pub input: Vec<u8>,
    pub input_cursor: usize,
    pub output: Vec<u8>,
    pub jump_table: Vec<usize>,
}

/// The machine state an interpreter's fields describe, under the given
/// status.
pub open spec fn machine_of(i: SimpleInterpreter, status: Status) -> MachineState {
    MachineState {
        pointer: i.pointer as nat,
        tape: i.cells@,
        pc: i.program_cursor as nat,
        in_pos: i.input_cursor as nat,
        output: i.output@,
        status,
    }
}

/// The machine state a run starts from: pointer and counter at 0, a tape
/// of one zero cell, the input channel where the previous runs left it,
/// and the output already emitted kept.
pub open spec fn start_state(i: SimpleInterpreter) -> MachineState {
    MachineState {
        pointer: 0,
        tape: seq![0u8],
        pc: 0,
        in_pos: i.input_cursor as nat,
        output: i.output@,
        status: Status::Running,
    }
}

/// The fields the dispatch helpers never touch.
pub open spec fn same_config(a: SimpleInterpreter, b: SimpleInterpreter) -> bool {
    &&& a.program@ == b.program@
    &&& a.input@ == b.input@
    &&& a.jump_table@ == b.jump_table@
}

impl SimpleInterpreter {
    /// A fresh interpreter: empty program, a tape of one zero cell, no
    /// input, no output yet.
    pub fn new() -> (r: Self)
        ensures
            r.pointer == 0,
            r.program_cursor == 0,
            r.cells@ == seq![0u8],
            r.program@ == Seq::<Token>::empty(),
            r.input@ == Seq::<u8>::empty(),
            r.input_cursor == 0,
            r.output@ == Seq::<u8>::empty(),
            r.jump_table@ == Seq::<usize>::empty(),
    {
        let mut cells: Vec<u8> = Vec::new();
        cells.push(0);
        proof {
            assert(cells@ =~= seq![0u8]);
        }
        SimpleInterpreter {
            pointer: 0,
            program_cursor: 0,
            cells,
            program: Vec::new(),
            input: Vec::new(),
            input_cursor: 0,
            output: Vec::new(),
            jump_table: Vec::new(),
        }
    }

    /// Replaces the input channel with the bytes of `input_stream`, to be
    /// consumed one byte per input instruction, and rewinds it to the
    /// start. Runs never rewind the channel themselves: input left over
    /// from one `eval` call is what the next call reads.
    #[allow(non_snake_case)]
    pub fn setInputStream(&mut self, input_stream: String)
        ensures
            final(self).input@ == encode_utf8(input_stream@),
            final(self).input_cursor == 0,
            final(self).pointer == old(self).pointer,
            final(self).program_cursor == old(self).program_cursor,
            final(self).cells@ == old(self).cells@,
            final(self).program@ == old(self).program@,
            final(self).output@ == old(self).output@,
            final(self).jump_table@ == old(self).jump_table@,
    {
        self.input = input_stream.as_str().as_bytes_vec();
        self.input_cursor = 0;
    }

    fn eval_increment_pointer(&mut self, _command: &Token) -> (r: Result<usize, InterpreterError>)
        requires
            old(self).pointer < old(self).cells.len(),
            old(self).program_cursor < old(self).program.len(),
        ensures
            same_config(*old(self), *final(self)),
            final(self).pointer == old(self).pointer + 1,
            final(self).cells@ == (if old(self).cells@.len() <= old(self).pointer + 1 {
                old(self).cells@.push(0u8)
            } else {
                old(self).cells@
            }),
            final(self).pointer < final(self).cells.len(),
            final(self).program_cursor == old(self).program_cursor + 1,
            final(self).input_cursor == old(self).input_cursor,
            final(self).output@ == old(self).output@,
            r == Ok::<usize, InterpreterError>(final(self).pointer),
    {
        let len = self.cells.len();
        self.pointer = self.pointer + 1;
        if len <= self.pointer {
            self.cells.push(0);
        }
        self.program_cursor = self.program_cursor + 1;
        Ok(self.pointer)
    }

    fn eval_decrement_pointer(&mut self, command: &Token) -> (r: Result<usize, InterpreterError>)
        requires
            old(self).program_cursor < old(self).program.len(),
        ensures
            same_config(*old(self), *final(self)),
            final(self).cells@ == old(self).cells@,
            final(self).input_cursor == old(self).input_cursor,
            final(self).output@ == old(self).output@,
            old(self).pointer == 0 ==> {
                &&& *final(self) == *old(self)
                &&& r == Err::<usize, InterpreterError>(
                    Annotation {
                        value: InterpreterErrorKind::PointerError,
                        location: command.location,
                    },
                )
            },
            old(self).pointer != 0 ==> {
                &&& final(self).pointer == old(self).pointer - 1
                &&& final(self).program_cursor == old(self).program_cursor + 1
                &&& r == Ok::<usize, InterpreterError>(final(self).pointer)
            },
    {
        if self.pointer == 0 {
            return Err(
                Annotation {
                    value: InterpreterErrorKind::PointerError,
                    location: command.location,
                },
            );
        }
        self.pointer = self.pointer - 1;
        self.program_cursor = self.program_cursor + 1;
        Ok(self.pointer)
    }

    fn eval_increment(&mut self, _command: &Token) -> (r: Result<usize, InterpreterError>)
        requires
            old(self).pointer < old(self).cells.len(),
            old(self).program_cursor < old(self).program.len(),
        ensures
            same_config(*old(self), *final(self)),
            final(self).pointer == old(self).pointer,
            final(self).cells@ == old(self).cells@.update(
                old(self).pointer as int,
                wrap_inc(old(self).cells@[old(self).pointer as int]),
            ),
            final(self).program_cursor == old(self).program_cursor + 1,
            final(self).input_cursor == old(self).input_cursor,
            final(self).output@ == old(self).output@,
            r == Ok::<usize, InterpreterError>(
                final(self).cells@[final(self).pointer as int] as usize,
            ),
    {
        let p = self.pointer;
        let v = self.cells[p];
        self.cells[p] = v.wrapping_add(1);
        self.program_cursor = self.program_cursor + 1;
        Ok(self.cells[p] as usize)
    }

    fn eval_decrement(&mut self, _command: &Token) -> (r: Result<usize, InterpreterError>)
        requires
            old(self).pointer < old(self).cells.len(),
            old(self).program_cursor < old(self).program.len(),
        ensures
            same_config(*old(self), *final(self)),
            final(self).pointer == old(self).pointer,
            final(self).cells@ == old(self).cells@.update(
                old(self).pointer as int,
                wrap_dec(old(self).cells@[old(self).pointer as int]),
            ),
            final(self).program_cursor == old(self).program_cursor + 1,
            final(self).input_cursor == old(self).input_cursor,
            final(self).output@ == old(self).output@,
            r == Ok::<usize, InterpreterError>(
                final(self).cells@[final(self).pointer as int] as usize,
            ),
    {
        let p = self.pointer;
        let v = self.cells[p];
        self.cells[p] = v.wrapping_sub(1);
        self.program_cursor = self.program_cursor + 1;
        Ok(self.cells[p] as usize)
    }

    fn eval_output(&mut self, _command: &Token) -> (r: Result<usize, InterpreterError>)
        requires
            old(self).pointer < old(self).cells.len(),
            old(self).program_cursor < old(self).program.len(),
        ensures
            same_config(*old(self), *final(self)),
            final(self).pointer == old(self).pointer,
            final(self).cells@ == old(self).cells@,
            final(self).program_cursor == old(self).program_cursor + 1,
            final(self).input_cursor == old(self).input_cursor,
            final(self).output@ == old(self).output@.push(
                old(self).cells@[old(self).pointer as int],
            ),
            r == Ok::<usize, InterpreterError>(
                old(self).cells@[old(self).pointer as int] as usize,
            ),
    {
        let p = self.pointer;
        let v = self.cells[p];
        self.output.push(v);
        self.program_cursor = self.program_cursor + 1;
        Ok(v as usize)
    }

    fn eval_input(&mut self, command: &Token) -> (r: Result<usize, InterpreterError>)
        requires
            old(self).pointer < old(self).cells.len(),
            old(self).program_cursor < old(self).program.len(),
        ensures
            same_config(*old(self), *final(self)),
            final(self).pointer == old(self).pointer,
            final(self).output@ == old(self).output@,
            old(self).input_cursor < old(self).input.len() ==> {
                &&& final(self).cells@ == old(self).cells@.update(
                    old(self).pointer as int,
                    old(self).input@[old(self).input_cursor as int],
                )
                &&& final(self).input_cursor == old(self).input_cursor + 1
                &&& final(self).program_cursor == old(self).program_cursor + 1
                &&& r == Ok::<usize, InterpreterError>(
                    old(self).input@[old(self).input_cursor as int] as usize,
                )
            },
            old(self).input_cursor >= old(self).input.len() ==> {
                &&& *final(self) == *old(self)
                &&& r == Err::<usize, InterpreterError>(
                    Annotation {
                        value: InterpreterErrorKind::InputError,
                        location: command.location,
                    },
                )
            },
    {
        if self.input_cursor < self.input.len() {
            let v = self.input[self.input_cursor];
            let p = self.pointer;
            self.cells[p] = v;
            self.input_cursor = self.input_cursor + 1;
            self.program_cursor = self.program_cursor + 1;
            Ok(v as usize)
        } else {
            Err(
                Annotation {
                    value: InterpreterErrorKind::InputError,
                    location: command.location,
                },
            )
        }
    }

    fn eval_jump_forward(&mut self, _command: &Token) -> (r: Result<usize, InterpreterError>)
        requires
            old(self).pointer < old(self).cells.len(),
            old(self).program_cursor < old(self).program.len(),
            old(self).program_cursor < old(self).jump_table.len(),
        ensures
            same_config(*old(self), *final(self)),
            final(self).pointer == old(self).pointer,
            final(self).cells@ == old(self).cells@,
            final(self).input_cursor == old(self).input_cursor,
            final(self).output@ == old(self).output@,
            final(self).program_cursor == (if old(self).cells@[old(self).pointer as int] != 0 {
                old(self).program_cursor + 1
            } else {
                old(self).jump_table@[old(self).program_cursor as int] as int
            }),
            r == Ok::<usize, InterpreterError>(
                old(self).cells@[old(self).pointer as int] as usize,
            ),
    {
        let v = self.cells[self.pointer];
        if v != 0 {
            self.program_cursor = self.program_cursor + 1;
            return Ok(v as usize);
        }
        self.program_cursor = self.jump_table[self.program_cursor];
        Ok(v as usize)
    }

    fn eval_jump_backward(&mut self, _command: &Token) -> (r: Result<usize, InterpreterError>)
        requires
            old(self).pointer < old(self).cells.len(),
            old(self).program_cursor < old(self).program.len(),
            old(self).program_cursor < old(self).jump_table.len(),
        ensures
            same_config(*old(self), *final(self)),
            final(self).pointer == old(self).pointer,
            final(self).cells@ == old(self).cells@,
            final(self).input_cursor == old(self).input_cursor,
            final(self).output@ == old(self).output@,
            final(self).program_cursor == (if old(self).cells@[old(self).pointer as int] == 0 {
                old(self).program_cursor + 1
            } else {
                old(self).jump_table@[old(self).program_cursor as int] as int
            }),
            r == Ok::<usize, InterpreterError>(
                old(self).cells@[old(self).pointer as int] as usize,
            ),
    {
        let v = self.cells[self.pointer];
        if v == 0 {
            self.program_cursor = self.program_cursor + 1;
            return Ok(v as usize);
        }
        self.program_cursor = self.jump_table[self.program_cursor];
        Ok(v as usize)
    }

    /// Resets the tape to a single zero cell and rebuilds the jump table
    /// from the current program by one left-to-right scan: a backward
    /// bracket with no pending forward bracket fails at once, a forward
    /// bracket still pending at the end fails at the earliest such one.
    /// No execution happens here.
    fn init(&mut self) -> (r: Result<usize, InterpreterError>)
        ensures
            final(self).program@ == old(self).program@,
            final(self).cells@ == seq![0u8],
            final(self).pointer == old(self).pointer,
            final(self).program_cursor == old(self).program_cursor,
            final(self).input@ == old(self).input@,
            final(self).input_cursor == old(self).input_cursor,
            final(self).output@ == old(self).output@,
            match bracket_error(old(self).program@) {
                Some(e) => r == Err::<usize, InterpreterError>(e) && final(self).jump_table@
                    == old(self).jump_table@,
                None => {
                    &&& r == Ok::<usize, InterpreterError>(0)
                    &&& final(self).jump_table@.len() == old(self).program@.len()
                    &&& (forall|k: int|
                        #[trigger] jump_table_of(old(self).program@).contains_key(k)
                            ==> final(self).jump_table@[k] == jump_table_of(old(self).program@)[k])
                },
            },
    {
        let mut cells: Vec<u8> = Vec::new();
        cells.push(0);
        proof {
            assert(cells@ =~= seq![0u8]);
        }
        self.cells = cells;

        let ghost prog = self.program@;
        let n = self.program.len();

        let mut jt: Vec<usize> = Vec::new();
        let mut j: usize = 0;
        while j < n
            invariant
                j <= n,
                jt@.len() == j,
            decreases n - j,
        {
            jt.push(0);
            j = j + 1;
        }

        let mut forward_brackets: Vec<usize> = Vec::new();
        let ghost mut table: Map<int, int> = Map::empty();
        let mut i: usize = 0;
        proof {
            assert(forward_brackets@.map_values(|u: usize| u as int) =~= Seq::<int>::empty());
            assert(scan_brackets(prog, 0) == ScanState::Scanning {
                stack: forward_brackets@.map_values(|u: usize| u as int),
                table,
            });
        }
        while i < n
            invariant
                i <= n,
                n == prog.len(),
                self.program@ == prog,
                prog == old(self).program@,
                self.cells@ == seq![0u8],
                self.pointer == old(self).pointer,
                self.program_cursor == old(self).program_cursor,
                self.input@ == old(self).input@,
                self.input_cursor == old(self).input_cursor,
                self.output@ == old(self).output@,
                self.jump_table@ == old(self).jump_table@,
                jt@.len() == n,
                scan_brackets(prog, i as int) == (ScanState::Scanning {
                    stack: forward_brackets@.map_values(|u: usize| u as int),
                    table,
                }),
                forall|j0: int|
                    0 <= j0 < forward_brackets@.len() ==> #[trigger] forward_brackets@[j0] < i,
                forall|k: int| #[trigger] table.contains_key(k) ==> 0 <= k < n && jt@[k]
                    == table[k],
            decreases n - i,
        {
            let ghost stack0 = forward_brackets@.map_values(|u: usize| u as int);
            proof {
                lemma_scan_invariant(prog, i as int);
            }
            let command = self.program[i];
            match command.value {
                TokenKind::JumpForward => {
                    forward_brackets.push(i);
                    proof {
                        assert(forward_brackets@.map_values(|u: usize| u as int) =~= stack0.push(
                            i as int,
                        ));
                    }
                }
                TokenKind::JumpBackward => {
                    if forward_brackets.len() > 0 {
                        let f = forward_brackets[forward_brackets.len() - 1];
                        forward_brackets.pop();
                        proof {
                            assert(stack0.last() == f as int);
                            assert(forward_brackets@.map_values(|u: usize| u as int)
                                =~= stack0.drop_last());
                            assert(f < i);
                            assert(!table.contains_key(f as int));
                            assert(!table.contains_key(i as int));
                        }
                        jt[f] = i;
                        jt[i] = f;
                        proof {
                            table = table.insert(f as int, i as int).insert(i as int, f as int);
                        }
                    } else {
                        proof {
                            assert(stack0.len() == 0);
                            assert(scan_brackets(prog, i as int + 1)
                                == ScanState::FailedBackward { pos: i as int });
                            lemma_scan_failed_absorbing(prog, i as int + 1, n as int);
                        }
                        return Err(
                            Annotation {
                                value: InterpreterErrorKind::UnmatchedJumpBackwardError,
                                location: command.location,
                            },
                        );
                    }
                }
                _ => {}
            }
            i = i + 1;
        }
        if forward_brackets.len() > 0 {
            let f0 = forward_brackets[0];
            proof {
                let stack = forward_brackets@.map_values(|u: usize| u as int);
                assert(stack[0] == f0 as int);
            }
            return Err(
                Annotation {
                    value: InterpreterErrorKind::UnmatchedJumpForwardError,
                    location: self.program[f0].location,
                },
            );
        }
        proof {
            assert(forward_brackets@.map_values(|u: usize| u as int).len() == 0);
        }
        self.jump_table = jt;
        Ok(0)
    }

    /// Runs `program` to completion or first error. The tape is reset to
    /// a single zero cell and the pointer and program counter to 0 before
    /// anything runs; the input channel keeps its position from earlier
    /// runs and the output channel keeps what was already emitted.
    ///
    /// If the brackets do not match, the matching error is returned and
    /// nothing is executed. Otherwise the interpreter's final fields and
    /// the result describe exactly a machine state that the specification
    /// machine `step` reaches from the starting state: `Ok(0)` when the
    /// counter ran past the end, the failing instruction's error
    /// otherwise — unless the run was still going after `STEP_BUDGET`
    /// dispatches, in which case it stops with `StepLimitError` at the
    /// instruction that was about to execute.
    pub fn eval(&mut self, program: &Vec<Token>) -> (r: Result<usize, InterpreterError>)
        ensures
            final(self).program@ == program@,
            final(self).input@ == old(self).input@,
            match bracket_error(program@) {
                Some(e) => {
                    &&& r == Err::<usize, InterpreterError>(e)
                    &&& final(self).pointer == 0
                    &&& final(self).program_cursor == 0
                    &&& final(self).cells@ == seq![0u8]
                    &&& final(self).input_cursor == old(self).input_cursor
                    &&& final(self).output@ == old(self).output@
                },
                None => {
                    &&& final(self).jump_table@.len() == program@.len()
                    &&& (forall|k: int| #[trigger] jump_table_of(program@).contains_key(k)
                        ==> final(self).jump_table@[k] == jump_table_of(program@)[k])
                    &&& match r {
                        Ok(v) => {
                            &&& v == 0
                            &&& reaches(
                                program@,
                                old(self).input@,
                                start_state(*old(self)),
                                machine_of(*final(self), Status::Done),
                            )
                        },
                        Err(e) => {
                            if e.value is StepLimitError {
                                &&& steps(
                                    program@,
                                    jump_table_of(program@),
                                    old(self).input@,
                                    start_state(*old(self)),
                                    STEP_BUDGET as nat,
                                ) == machine_of(*final(self), Status::Running)
                                &&& final(self).program_cursor < program@.len()
                                &&& e.location == program@[final(self).program_cursor as int].location
                            } else {
                                reaches(
                                    program@,
                                    old(self).input@,
                                    start_state(*old(self)),
                                    machine_of(
                                        *final(self),
                                        Status::Failed { kind: e.value, location: e.location },
                                    ),
                                )
                            }
                        },
                    }
                },
            },
    {
        let mut program_copy: Vec<Token> = Vec::new();
        let n0 = program.len();
        let mut ci: usize = 0;
        proof {
            assert(program_copy@ =~= program@.take(0));
        }
        while ci < n0
            invariant
                ci <= n0,
                n0 == program@.len(),
                program_copy@ == program@.take(ci as int),
            decreases n0 - ci,
        {
            program_copy.push(program[ci]);
            proof {
                assert(program@.take(ci as int).push(program@[ci as int]) =~= program@.take(
                    ci as int + 1,
                ));
            }
            ci = ci + 1;
        }
        proof {
            assert(program@.take(n0 as int) =~= program@);
        }
        self.program = program_copy;
        self.pointer = 0;
        self.program_cursor = 0;

        let init_result = self.init();
        match init_result {
            Err(e) => {
                return Err(e);
            }
            Ok(_) => {}
        }

        let ghost prog = self.program@;
        let ghost table = jump_table_of(prog);
        let ghost input = self.input@;
        let ghost start = start_state(*old(self));
        proof {
            assert(steps(prog, table, input, start, 0) == start);
            assert(machine_of(*self, Status::Running) =~= start);
        }
        let ghost mut steps_taken: nat = 0;
        let mut fuel: u64 = STEP_BUDGET;
        while self.program_cursor < self.program.len()
            invariant
                self.program@ == prog,
                prog == program@,
                well_formed(prog),
                table == jump_table_of(prog),
                self.jump_table@.len() == prog.len(),
                forall|k: int| #[trigger] table.contains_key(k) ==> self.jump_table@[k]
                    == table[k],
                self.input@ == input,
                input == old(self).input@,
                self.pointer < self.cells.len(),
                self.program_cursor <= self.program.len(),
                steps_taken + fuel == STEP_BUDGET,
                steps(prog, table, input, start, steps_taken) == machine_of(
                    *self,
                    Status::Running,
                ),
                start == start_state(*old(self)),
            decreases fuel,
        {
            proof {
                lemma_well_formed_table(prog);
            }
            let idx = self.program_cursor;
            if fuel == 0 {
                return Err(
                    Annotation {
                        value: InterpreterErrorKind::StepLimitError,
                        location: self.program[idx].location,
                    },
                );
            }
            fuel = fuel - 1;
            let ghost pre = machine_of(*self, Status::Running);
            let command = self.program[idx];
            proof {
                lemma_steps_succ(prog, table, input, start, steps_taken);
                steps_taken = steps_taken + 1;
            }
            let res = match command.value {
                TokenKind::IncrementPointer => self.eval_increment_pointer(&command),
                TokenKind::DecrementPointer => self.eval_decrement_pointer(&command),
                TokenKind::Increment => self.eval_increment(&command),
                TokenKind::Decrement => self.eval_decrement(&command),
                TokenKind::Output => self.eval_output(&command),
                TokenKind::Input => self.eval_input(&command),
                TokenKind::JumpForward => self.eval_jump_forward(&command),
                TokenKind::JumpBackward => self.eval_jump_backward(&command),
            };
            match res {
                Ok(_) => {
                    proof {
                        if command.value is JumpForward || command.value is JumpBackward {
                            assert(table.contains_key(idx as int));
                            assert(0 <= table[idx as int] < prog.len());
                            assert(self.jump_table@[idx as int] == table[idx as int]);
                        }
                        assert(steps(prog, table, input, start, steps_taken) == step(
                            prog,
                            table,
                            input,
                            pre,
                        ));
                        assert(machine_of(*self, Status::Running) =~= step(
                            prog,
                            table,
                            input,
                            pre,
                        ));
                    }
                }
                Err(e) => {
                    proof {
                        assert(steps(prog, table, input, start, steps_taken) == step(
                            prog,
                            table,
                            input,
                            pre,
                        ));
                        let fin = machine_of(
                            *self,
                            Status::Failed { kind: e.value, location: e.location },
                        );
                        assert(step(prog, table, input, pre) =~= fin);
                        assert(steps(prog, jump_table_of(prog), input, start, steps_taken)
                            == fin);
                        assert(reaches(prog, input, start, fin));
                    }
                    return Err(e);
                }
            }
        }
        proof {
            lemma_steps_succ(prog, table, input, start, steps_taken);
            let fin = machine_of(*self, Status::Done);
            assert(step(prog, table, input, steps(prog, table, input, start, steps_taken)) =~= fin);
            assert(steps(prog, jump_table_of(prog), input, start, steps_taken + 1) == fin);
            assert(reaches(prog, input, start, fin));
        }
        Ok(0)
    }
}

} // verus!
