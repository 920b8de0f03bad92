//! The mathematical model of the interpreter: machine states, the
//! small-step transition relation, and iterated execution.
//!
//! The executable interpreter in `vm` is proved to follow `step` exactly;
//! everything the library promises about a run is stated over `run_steps`.

use vstd::prelude::*;

verus! {

/// Number of byte cells on the tape, the classical size for this
/// language. Only the first 256 cells are ever reachable, because the
/// tape cursor is 8 bits wide.
pub const MEMORY_SIZE: usize = 30000;

/// The conditions that end a run without a result. Every fault is
/// surfaced as a value; no verified function of this crate panics.
#[derive(Clone, Copy, Debug, PartialEq, Eq, Structural)]
pub enum ErrorKind {
    /// A read instruction executed with no remaining input characters.
    InputExhausted,
    /// The forward scan for a loop close ran past the end of the program.
    ProgramIndexOutOfRange,
    /// A loop close needed to jump back, but no loop open was on the stack.
    UnmatchedLoopClose,
    /// The caller's step budget ran out before the program halted. The
    /// machine itself would keep running; a caller that wants the
    /// unbounded behavior passes `u64::MAX`.
    StepLimitExceeded,
}

/// The complete state of one run of the machine.
#[verifier::ext_equal]
pub ghost struct State {
    /// The program, one character per instruction; read-only for the run.
    pub tokens: Seq<char>,
    /// The instruction cursor: position of the next instruction.
    pub pc: int,
    /// Positions of executed loop opens; entries are never popped.
    pub loop_stack: Seq<int>,
    /// Everything appended by output instructions so far.
    pub output: Seq<char>,
    /// The input character sequence; read-only for the run.
    pub input: Seq<char>,
    /// How many input characters were consumed so far.
    pub input_cursor: int,
    /// The tape of byte cells.
    pub memory: Seq<u8>,
    /// The tape cursor: which cell is active. 8 bits wide, so it wraps
    /// within the first 256 cells of the tape.
    pub memory_cursor: u8,
}

/// The result of executing one instruction.
pub ghost enum StepResult {
    Next(State),
    Fail(ErrorKind),
}

/// The result of running for a bounded number of steps.
pub ghost enum Outcome {
    /// The run has not halted yet; this is the state reached so far.
    Running(State),
    /// The instruction cursor reached the end of the program.
    Halted(State),
    /// The run aborted.
    Failed(ErrorKind),
}

/// Is `c` one of the eight recognized instruction characters?
/// Every other character is inert.
pub open spec fn is_instruction(c: char) -> bool {
    c == ',' || c == '.' || c == '>' || c == '<' || c == '+' || c == '-' || c == '[' || c == ']'
}

/// The value of the active cell.
pub open spec fn cell(s: State) -> u8 {
    s.memory[s.memory_cursor as int]
}

/// Successor modulo 256, for cell values and for the tape cursor alike.
pub open spec fn wrap_inc(v: u8) -> u8 {
    if v == 255 {
        0
    } else {
        (v + 1) as u8
    }
}

/// Predecessor modulo 256, for cell values and for the tape cursor alike.
pub open spec fn wrap_dec(v: u8) -> u8 {
    if v == 0 {
        255
    } else {
        (v - 1) as u8
    }
}

/// Position of the first `]` at or after `from`, if any. This is the
/// forward scan a loop open performs when its condition cell is zero;
/// deliberately it does not count nesting depth.
pub open spec fn scan_close(tokens: Seq<char>, from: int) -> Option<int>
    decreases tokens.len() - from,
{
    if from < 0 || from >= tokens.len() {
        None
    } else if tokens[from] == ']' {
        Some(from)
    } else {
        scan_close(tokens, from + 1)
    }
}

/// Execute the single instruction under the instruction cursor.
/// Meaningful when `0 <= s.pc < s.tokens.len()`.
///
/// Every transition includes the uniform advance of the instruction
/// cursor by one; the bracket instructions relocate it first.
pub open spec fn step(s: State) -> StepResult {
    let c = s.tokens[s.pc];
    if c == ',' {
        if s.input_cursor < s.input.len() {
            StepResult::Next(
                State {
                    memory: s.memory.update(s.memory_cursor as int, s.input[s.input_cursor] as u8),
                    input_cursor: s.input_cursor + 1,
                    pc: s.pc + 1,
                    ..s
                },
            )
        } else {
            StepResult::Fail(ErrorKind::InputExhausted)
        }
    } else if c == '.' {
        StepResult::Next(State { output: s.output.push(cell(s) as char), pc: s.pc + 1, ..s })
    } else if c == '>' {
        StepResult::Next(State { memory_cursor: wrap_inc(s.memory_cursor), pc: s.pc + 1, ..s })
    } else if c == '<' {
        StepResult::Next(State { memory_cursor: wrap_dec(s.memory_cursor), pc: s.pc + 1, ..s })
    } else if c == '+' {
        StepResult::Next(
            State {
                memory: s.memory.update(s.memory_cursor as int, wrap_inc(cell(s))),
                pc: s.pc + 1,
                ..s
            },
        )
    } else if c == '-' {
        StepResult::Next(
            State {
                memory: s.memory.update(s.memory_cursor as int, wrap_dec(cell(s))),
                pc: s.pc + 1,
                ..s
            },
        )
    } else if c == '[' {
        if cell(s) == 0 {
            match scan_close(s.tokens, s.pc) {
                Some(close) => StepResult::Next(
                    State { loop_stack: s.loop_stack.push(s.pc), pc: close + 1, ..s },
                ),
                None => StepResult::Fail(ErrorKind::ProgramIndexOutOfRange),
            }
        } else {
            StepResult::Next(State { loop_stack: s.loop_stack.push(s.pc), pc: s.pc + 1, ..s })
        }
    } else if c == ']' {
        if cell(s) != 0 {
            if s.loop_stack.len() > 0 {
                StepResult::Next(State { pc: s.loop_stack.last() + 1, ..s })
            } else {
                StepResult::Fail(ErrorKind::UnmatchedLoopClose)
            }
        } else {
            StepResult::Next(State { pc: s.pc + 1, ..s })
        }
    } else {
        StepResult::Next(State { pc: s.pc + 1, ..s })
    }
}

/// The state at the start of a run: cursors at zero, stack and output
/// empty, the tape all zero.
pub open spec fn init_state(program: Seq<char>, input: Seq<char>) -> State {
    State {
        tokens: program,
        pc: 0,
        loop_stack: Seq::empty(),
        output: Seq::empty(),
        input: input,
        input_cursor: 0,
        memory: Seq::new(MEMORY_SIZE as nat, |i: int| 0u8),
        memory_cursor: 0,
    }
}

/// The ranges every reachable state stays within.
pub open spec fn state_wf(s: State) -> bool {
    &&& s.memory.len() == MEMORY_SIZE
    &&& 0 <= s.pc <= s.tokens.len()
    &&& 0 <= s.input_cursor <= s.input.len()
    &&& forall|i: int| 0 <= i < s.loop_stack.len() ==> 0 <= #[trigger] s.loop_stack[i]
        < s.tokens.len()
}

/// Wrap a state as an outcome: halted if the instruction cursor is at the
/// end of the program, still running otherwise.
pub open spec fn outcome_of(s: State) -> Outcome {
    if s.pc >= s.tokens.len() {
        Outcome::Halted(s)
    } else {
        Outcome::Running(s)
    }
}

/// Run for at most `n` steps. Once the machine halts or fails, further
/// steps change nothing: the outcome is absorbing.
pub open spec fn run_steps(s: State, n: nat) -> Outcome
    decreases n,
{
    if s.pc >= s.tokens.len() {
        Outcome::Halted(s)
    } else if n == 0 {
        Outcome::Running(s)
    } else {
        match step(s) {
            StepResult::Next(s2) => run_steps(s2, (n - 1) as nat),
            StepResult::Fail(e) => Outcome::Failed(e),
        }
    }
}

/// Whatever `scan_close` finds is a `]` within the program, at or after
/// the position the scan started from.
pub proof fn lemma_scan_close_in_range(tokens: Seq<char>, from: int)
    ensures
        (match scan_close(tokens, from) {
            Some(close) => from <= close < tokens.len() && tokens[close] == ']',
            None => true,
        }),
    decreases tokens.len() - from,
{
    if from < 0 || from >= tokens.len() {
    } else if tokens[from] == ']' {
    } else {
        lemma_scan_close_in_range(tokens, from + 1);
    }
}

/// Unfolding one more step at the end of a bounded run.
pub proof fn lemma_run_steps_succ(s: State, n: nat, t: State)
    requires
        run_steps(s, n) == Outcome::Running(t),
    ensures
        run_steps(s, n + 1) == (match step(t) {
            StepResult::Next(t2) => outcome_of(t2),
            StepResult::Fail(e) => Outcome::Failed(e),
        }),
    decreases n,
{
    if s.pc >= s.tokens.len() {
    } else if n == 0 {
        match step(s) {
            StepResult::Next(s2) => {
                assert(run_steps(s, 1) == run_steps(s2, 0));
                assert(run_steps(s2, 0) == outcome_of(s2));
            },
            StepResult::Fail(e) => {
                assert(run_steps(s, 1) == Outcome::Failed(e));
            },
        }
    } else {
        match step(s) {
            StepResult::Next(s2) => {
                lemma_run_steps_succ(s2, (n - 1) as nat, t);
            },
            StepResult::Fail(_) => {},
        }
    }
}

/// Bounded runs compose: running `m + n` steps is running `m` steps and
/// then `n` more from wherever that left off.
pub proof fn lemma_run_steps_add(s: State, m: nat, n: nat, t: State)
    requires
        run_steps(s, m) == Outcome::Running(t),
    ensures
        run_steps(s, m + n) == run_steps(t, n),
    decreases m,
{
    if s.pc >= s.tokens.len() {
    } else if m == 0 {
    } else {
        match step(s) {
            StepResult::Next(s2) => {
                lemma_run_steps_add(s2, (m - 1) as nat, n, t);
            },
            StepResult::Fail(_) => {},
        }
    }
}

/// A halted or failed outcome is final: allowing more steps does not
/// change it.
pub proof fn lemma_run_steps_absorb(s: State, m: nat, n: nat)
    requires
        m <= n,
        !(run_steps(s, m) matches Outcome::Running(_)),
    ensures
        run_steps(s, n) == run_steps(s, m),
    decreases m,
{
    if s.pc >= s.tokens.len() {
    } else if m == 0 {
    } else {
        match step(s) {
            StepResult::Next(s2) => {
                lemma_run_steps_absorb(s2, (m - 1) as nat, (n - 1) as nat);
            },
            StepResult::Fail(_) => {},
        }
    }
}

} // verus!
