//! The executable interpreter, proved to follow the small-step model in
//! `semantics` instruction for instruction.

use vstd::prelude::*;
use vstd::string::*;

use crate::semantics::ErrorKind;
use crate::semantics::MEMORY_SIZE;
use crate::semantics::Outcome;
use crate::semantics::State;
use crate::semantics::StepResult;
use crate::semantics::cell;
use crate::semantics::init_state;
use crate::semantics::lemma_run_steps_absorb;
use crate::semantics::lemma_run_steps_succ;
use crate::semantics::lemma_scan_close_in_range;
use crate::semantics::outcome_of;
use crate::semantics::run_steps;
use crate::semantics::scan_close;
use crate::semantics::state_wf;
use crate::semantics::step;
use crate::semantics::wrap_dec;
use crate::semantics::wrap_inc;

verus! {

/// The virtual machine: it owns all state of one run and exposes `run`,
/// which interprets a program against an input and returns the collected
/// output.
pub struct Brainfuck {
    tokens: Vec<char>,
    program_cursor: usize,
    loop_stack: Vec<usize>,
    output: String,
    input: String,
    input_cursor: usize,
    memory: Vec<u8>,
    memory_cursor: u8,
}

impl View for Brainfuck {
    type V = State;

    closed spec fn view(&self) -> State {
        State {
            tokens: self.tokens@,
            pc: self.program_cursor as int,
            loop_stack: self.loop_stack@.map_values(|p: usize| p as int),
            output: self.output@,
            input: self.input@,
            input_cursor: self.input_cursor as int,
            memory: self.memory@,
            memory_cursor: self.memory_cursor,
        }
    }
}

/// Relies on `String::push` from std: it appends exactly the given
/// character at the end of the string.
#[verifier::external_body]
fn push_char(s: &mut String, c: char)
    ensures
        final(s)@ == old(s)@.push(c),
{
    s.push(c)
}

impl Brainfuck {
    /// The abstract state of this machine stays within its ranges.
    pub closed spec fn wf(&self) -> bool {
        state_wf(self@)
    }

    /// Interpret `source` against `input` and return the full output, or
    /// the condition that ended the run instead.
    ///
    /// The language puts no bound on a run, and a program that loops
    /// forever never halts; a verified interpreter must terminate, so
    /// the caller supplies the step budget `max_steps`, and a run that
    /// is still going when it is spent ends in `StepLimitExceeded`.
    ///
    /// The contract is exact: the result mirrors what `max_steps` steps
    /// of the small-step model do from the initial state.
    pub fn run(source: String, input: String, max_steps: u64) -> (r: Result<String, ErrorKind>)
        ensures
            (match r {
                Ok(out) => run_steps(init_state(source@, input@), max_steps as nat)
                    matches Outcome::Halted(f) && f.output == out@,
                Err(ErrorKind::StepLimitExceeded) => run_steps(
                    init_state(source@, input@),
                    max_steps as nat,
                ) matches Outcome::Running(_),
                Err(e) => run_steps(init_state(source@, input@), max_steps as nat)
                    == Outcome::Failed(e),
            }),
    {
        let mut vm = Brainfuck::new(source, input);
        vm.evaluate(max_steps)
    }

    /// The fetch-decode-execute loop: run until the instruction cursor
    /// reaches the end of the program, a fault occurs, or the step budget
    /// is spent; return the collected output or the ending condition.
    pub fn evaluate(&mut self, max_steps: u64) -> (r: Result<String, ErrorKind>)
        requires
            old(self).wf(),
        ensures
            final(self).wf(),
            (match r {
                Ok(out) => run_steps(old(self)@, max_steps as nat) matches Outcome::Halted(f)
                    && f == final(self)@ && f.output == out@,
                Err(ErrorKind::StepLimitExceeded) => run_steps(old(self)@, max_steps as nat)
                    == Outcome::Running(final(self)@),
                Err(e) => run_steps(old(self)@, max_steps as nat) == Outcome::Failed(e),
            }),
    {
        let ghost start: State = old(self)@;
        let mut remaining: u64 = max_steps;
        while self.program_cursor < self.tokens.len() && remaining > 0
            invariant
                self.wf(),
                start == old(self)@,
                remaining <= max_steps,
                run_steps(start, (max_steps - remaining) as nat) == outcome_of(self@),
            decreases remaining,
        {
            let ghost before: State = self@;
            let ghost used: nat = (max_steps - remaining) as nat;
            match self.tick() {
                Ok(_) => {
                    proof {
                        lemma_run_steps_succ(start, used, before);
                    }
                },
                Err(e) => {
                    proof {
                        lemma_run_steps_succ(start, used, before);
                        lemma_run_steps_absorb(start, used + 1, max_steps as nat);
                        assert(run_steps(start, max_steps as nat) == Outcome::Failed(e));
                    }
                    return Err(e);
                },
            }
            remaining = remaining - 1;
        }
        let ghost used: nat = (max_steps - remaining) as nat;
        if self.program_cursor < self.tokens.len() {
            proof {
                assert(run_steps(start, max_steps as nat) == Outcome::Running(self@));
            }
            return Err(ErrorKind::StepLimitExceeded);
        }
        proof {
            lemma_run_steps_absorb(start, used, max_steps as nat);
            assert(run_steps(start, max_steps as nat) == Outcome::Halted(self@));
        }
        let out = self.output.clone();
        Ok(out)
    }

    /// A machine ready to run `source` against `input`: cursors at zero,
    /// loop stack and output empty, the tape all zero.
    pub fn new(source: String, input: String) -> (vm: Brainfuck)
        ensures
            vm.wf(),
            vm@ == init_state(source@, input@),
    {
        let n = source.as_str().unicode_len();
        let mut tokens: Vec<char> = Vec::new();
        let mut i: usize = 0;
        while i < n
            invariant
                i <= n,
                n == source@.len(),
                tokens@ =~= source@.subrange(0, i as int),
            decreases n - i,
        {
            let c = source.as_str().get_char(i);
            tokens.push(c);
            i = i + 1;
        }
        let memory: Vec<u8> = vec![0u8; MEMORY_SIZE];
        let vm = Brainfuck {
            tokens,
            program_cursor: 0,
            loop_stack: Vec::new(),
            input,
            input_cursor: 0,
            memory,
            memory_cursor: 0,
            output: String::new(),
        };
        proof {
            assert(vm@.tokens =~= source@);
            assert(vm@.memory =~= Seq::new(MEMORY_SIZE as nat, |j: int| 0u8));
            assert(vm@.loop_stack =~= Seq::<int>::empty());
            assert(vm@ =~= init_state(source@, input@));
        }
        vm
    }

    /// Fetch, decode and execute the single instruction under the
    /// instruction cursor, exactly as the model's `step` describes it.
    fn tick(&mut self) -> (r: Result<(), ErrorKind>)
        requires
            old(self).wf(),
            old(self)@.pc < old(self)@.tokens.len(),
        ensures
            final(self).wf(),
            (match r {
                Ok(_) => step(old(self)@) == StepResult::Next(final(self)@),
                Err(e) => step(old(self)@) == StepResult::Fail(e) && e
                    != ErrorKind::StepLimitExceeded,
            }),
    {
        let c = self.token();
        match c {
            ',' => {
                if let Err(e) = self.read_byte_from_input() {
                    return Err(e);
                }
            },
            '.' => self.append_output(),
            '>' => self.next_cell(),
            '<' => self.prev_cell(),
            '+' => self.increment(),
            '-' => self.decrement(),
            '[' => {
                if let Err(e) = self.jmp_if_zero() {
                    return Err(e);
                }
            },
            ']' => {
                if let Err(e) = self.jmp_if_not_zero() {
                    return Err(e);
                }
            },
            _ => {},
        }
        // The uniform advance of the instruction cursor. Whatever the
        // instruction did, the cursor still points into the program, so
        // the increment cannot overflow.
        let n = self.tokens.len();
        proof {
            if c == '[' {
                lemma_scan_close_in_range(old(self)@.tokens, old(self)@.pc);
            }
            if c == ']' && cell(old(self)@) != 0 {
                assert(old(self)@.loop_stack[old(self)@.loop_stack.len() - 1]
                    < old(self)@.tokens.len());
            }
            assert(self.program_cursor < n);
        }
        self.program_cursor = self.program_cursor + 1;
        proof {
            assert(step(old(self)@) matches StepResult::Next(s2) && s2 =~= self@);
        }
        Ok(())
    }

    /// Store `value` in the active cell.
    fn set_cell_value(&mut self, value: u8)
        requires
            old(self).wf(),
        ensures
            final(self).wf(),
            final(self)@ == (State {
                memory: old(self)@.memory.update(old(self)@.memory_cursor as int, value),
                ..old(self)@
            }),
    {
        let i: usize = self.memory_cursor as usize;
        self.memory[i] = value;
        proof {
            assert(final(self)@ =~= (State {
                memory: old(self)@.memory.update(old(self)@.memory_cursor as int, value),
                ..old(self)@
            }));
        }
    }

    /// The value of the active cell.
    fn cell_value(&self) -> (v: u8)
        requires
            self.wf(),
        ensures
            v == cell(self@),
    {
        self.memory[self.memory_cursor as usize]
    }

    /// The instruction under the instruction cursor.
    fn token(&self) -> (c: char)
        requires
            self.wf(),
            self@.pc < self@.tokens.len(),
        ensures
            c == self@.tokens[self@.pc],
    {
        self.tokens[self.program_cursor]
    }

    /// Increment the active cell, wrapping modulo 256.
    fn increment(&mut self)
        requires
            old(self).wf(),
        ensures
            final(self).wf(),
            final(self)@ == (State {
                memory: old(self)@.memory.update(
                    old(self)@.memory_cursor as int,
                    wrap_inc(cell(old(self)@)),
                ),
                ..old(self)@
            }),
    {
        let v = self.cell_value();
        self.set_cell_value(v.wrapping_add(1));
    }

    /// Decrement the active cell, wrapping modulo 256.
    fn decrement(&mut self)
        requires
            old(self).wf(),
        ensures
            final(self).wf(),
            final(self)@ == (State {
                memory: old(self)@.memory.update(
                    old(self)@.memory_cursor as int,
                    wrap_dec(cell(old(self)@)),
                ),
                ..old(self)@
            }),
    {
        let v = self.cell_value();
        self.set_cell_value(v.wrapping_sub(1));
    }

    /// Move the tape cursor one cell to the right, wrapping modulo 256.
    fn next_cell(&mut self)
        requires
            old(self).wf(),
        ensures
            final(self).wf(),
            final(self)@ == (State {
                memory_cursor: wrap_inc(old(self)@.memory_cursor),
                ..old(self)@
            }),
    {
        self.memory_cursor = self.memory_cursor.wrapping_add(1);
        proof {
            assert(final(self)@ =~= (State {
                memory_cursor: wrap_inc(old(self)@.memory_cursor),
                ..old(self)@
            }));
        }
    }

    /// Move the tape cursor one cell to the left, wrapping modulo 256.
    fn prev_cell(&mut self)
        requires
            old(self).wf(),
        ensures
            final(self).wf(),
            final(self)@ == (State {
                memory_cursor: wrap_dec(old(self)@.memory_cursor),
                ..old(self)@
            }),
    {
        self.memory_cursor = self.memory_cursor.wrapping_sub(1);
        proof {
            assert(final(self)@ =~= (State {
                memory_cursor: wrap_dec(old(self)@.memory_cursor),
                ..old(self)@
            }));
        }
    }

    /// Append the active cell's value, read as a character, to the output.
    fn append_output(&mut self)
        requires
            old(self).wf(),
        ensures
            final(self).wf(),
            final(self)@ == (State {
                output: old(self)@.output.push(cell(old(self)@) as char),
                ..old(self)@
            }),
    {
        let v = self.cell_value();
        push_char(&mut self.output, v as char);
        proof {
            assert(final(self)@ =~= (State {
                output: old(self)@.output.push(cell(old(self)@) as char),
                ..old(self)@
            }));
        }
    }

    /// Read the next input character into the active cell, truncated to
    /// its low 8 bits, and advance the input cursor. Fails with
    /// `InputExhausted` exactly when the input is already spent.
    fn read_byte_from_input(&mut self) -> (r: Result<(), ErrorKind>)
        requires
            old(self).wf(),
        ensures
            final(self).wf(),
            (match r {
                Ok(_) => old(self)@.input_cursor < old(self)@.input.len() && final(self)@
                    == (State {
                    memory: old(self)@.memory.update(
                        old(self)@.memory_cursor as int,
                        old(self)@.input[old(self)@.input_cursor] as u8,
                    ),
                    input_cursor: old(self)@.input_cursor + 1,
                    ..old(self)@
                }),
                Err(e) => old(self)@.input_cursor >= old(self)@.input.len() && e
                    == ErrorKind::InputExhausted && *final(self) == *old(self),
            }),
    {
        if self.input_cursor >= self.input.as_str().unicode_len() {
            return Err(ErrorKind::InputExhausted);
        }
        let curr_char = self.input.as_str().get_char(self.input_cursor);
        self.set_cell_value(curr_char as u8);
        self.input_cursor = self.input_cursor + 1;
        proof {
            assert(final(self)@ =~= (State {
                memory: old(self)@.memory.update(
                    old(self)@.memory_cursor as int,
                    old(self)@.input[old(self)@.input_cursor] as u8,
                ),
                input_cursor: old(self)@.input_cursor + 1,
                ..old(self)@
            }));
        }
        Ok(())
    }

    /// Enter a loop: push the loop open's position onto the loop stack;
    /// if the active cell is zero, scan forward to the first `]` so the
    /// body is skipped. Fails with `ProgramIndexOutOfRange` exactly when
    /// that scan runs past the end of the program.
    fn jmp_if_zero(&mut self) -> (r: Result<(), ErrorKind>)
        requires
            old(self).wf(),
            old(self)@.pc < old(self)@.tokens.len(),
        ensures
            final(self).wf(),
            (match r {
                Ok(_) => (if cell(old(self)@) == 0 {
                    scan_close(old(self)@.tokens, old(self)@.pc) matches Some(close)
                        && final(self)@ == (State {
                        loop_stack: old(self)@.loop_stack.push(old(self)@.pc),
                        pc: close,
                        ..old(self)@
                    })
                } else {
                    final(self)@ == (State {
                        loop_stack: old(self)@.loop_stack.push(old(self)@.pc),
                        ..old(self)@
                    })
                }),
                Err(e) => cell(old(self)@) == 0 && scan_close(old(self)@.tokens, old(self)@.pc)
                    is None && e == ErrorKind::ProgramIndexOutOfRange,
            }),
    {
        let here = self.program_cursor;
        self.loop_stack.push(here);
        proof {
            assert(self@.loop_stack =~= old(self)@.loop_stack.push(old(self)@.pc));
            assert(self@ =~= (State {
                loop_stack: old(self)@.loop_stack.push(old(self)@.pc),
                ..old(self)@
            }));
        }
        if self.cell_value() == 0 {
            let n = self.tokens.len();
            while self.program_cursor < n && self.tokens[self.program_cursor] != ']'
                invariant
                    n == self@.tokens.len(),
                    here <= self.program_cursor <= n,
                    self.tokens@ == old(self)@.tokens,
                    scan_close(self@.tokens, here as int) == scan_close(
                        self@.tokens,
                        self.program_cursor as int,
                    ),
                    self@ == (State {
                        loop_stack: old(self)@.loop_stack.push(old(self)@.pc),
                        pc: self.program_cursor as int,
                        ..old(self)@
                    }),
                decreases n - self.program_cursor,
            {
                self.program_cursor = self.program_cursor + 1;
                proof {
                    assert(self@ =~= (State {
                        loop_stack: old(self)@.loop_stack.push(old(self)@.pc),
                        pc: self.program_cursor as int,
                        ..old(self)@
                    }));
                }
            }
            if self.program_cursor == n {
                return Err(ErrorKind::ProgramIndexOutOfRange);
            }
            proof {
                lemma_scan_close_in_range(self@.tokens, here as int);
            }
        }
        Ok(())
    }

    /// Leave or repeat a loop: if the active cell is nonzero, jump back
    /// to the most recently pushed loop open. Fails with
    /// `UnmatchedLoopClose` exactly when a jump is needed and the loop
    /// stack is empty.
    fn jmp_if_not_zero(&mut self) -> (r: Result<(), ErrorKind>)
        requires
            old(self).wf(),
        ensures
            final(self).wf(),
            (match r {
                Ok(_) => (if cell(old(self)@) != 0 {
                    old(self)@.loop_stack.len() > 0 && final(self)@ == (State {
                        pc: old(self)@.loop_stack.last(),
                        ..old(self)@
                    })
                } else {
                    *final(self) == *old(self)
                }),
                Err(e) => cell(old(self)@) != 0 && old(self)@.loop_stack.len() == 0 && e
                    == ErrorKind::UnmatchedLoopClose,
            }),
    {
        if self.cell_value() != 0 {
            if self.loop_stack.len() == 0 {
                return Err(ErrorKind::UnmatchedLoopClose);
            }
            let back = self.loop_stack[self.loop_stack.len() - 1];
            self.program_cursor = back;
            proof {
                assert(old(self)@.loop_stack.last() == back as int);
                assert(final(self)@ =~= (State {
                    pc: old(self)@.loop_stack.last(),
                    ..old(self)@
                }));
            }
        }
        Ok(())
    }
}

} // verus!
