//! The general properties of the machine, stated over the small-step
//! model and proved once for all programs, inputs and states.

use vstd::prelude::*;

use crate::semantics::ErrorKind;
use crate::semantics::MEMORY_SIZE;
use crate::semantics::Outcome;
use crate::semantics::State;
use crate::semantics::StepResult;
use crate::semantics::cell;
use crate::semantics::init_state;
use crate::semantics::is_instruction;
use crate::semantics::lemma_run_steps_add;
use crate::semantics::outcome_of;
use crate::semantics::run_steps;
use crate::semantics::scan_close;
use crate::semantics::step;
use crate::semantics::wrap_dec;
use crate::semantics::wrap_inc;

verus! {

/// `wrap_inc` applied `n` times.
pub open spec fn iter_wrap_inc(v: u8, n: nat) -> u8
    decreases n,
{
    if n == 0 {
        v
    } else {
        wrap_inc(iter_wrap_inc(v, (n - 1) as nat))
    }
}

/// Iterated wrapping successor is addition modulo 256.
pub proof fn lemma_iter_wrap_inc_mod(v: u8, n: nat)
    ensures
        iter_wrap_inc(v, n) == (v + n) % 256,
    decreases n,
{
    if n == 0 {
        assert((v as int) % 256 == v) by (nonlinear_arith)
            requires
                0 <= v < 256,
        ;
    } else {
        lemma_iter_wrap_inc_mod(v, (n - 1) as nat);
        assert(wrap_inc(((v + n - 1) % 256) as u8) == (v + n) % 256) by (nonlinear_arith)
            requires
                n >= 1,
                0 <= v < 256,
                wrap_inc(((v + n - 1) % 256) as u8) == (if (v + n - 1) % 256 == 255 {
                    0
                } else {
                    (v + n - 1) % 256 + 1
                }),
        ;
    }
}

/// Applying the successor 256 times is the identity: cell values and the
/// tape cursor live modulo 256.
pub proof fn lemma_wrap_cycle(v: u8)
    ensures
        iter_wrap_inc(v, 256) == v,
        wrap_dec(0) == 255,
{
    lemma_iter_wrap_inc_mod(v, 256);
    assert((v + 256int) % 256 == v) by (nonlinear_arith)
        requires
            0 <= v < 256,
    ;
}

/// One application of `wrap_inc` can be folded into the iteration.
proof fn lemma_iter_wrap_inc_shift(v: u8, n: nat)
    ensures
        iter_wrap_inc(wrap_inc(v), n) == iter_wrap_inc(v, n + 1),
    decreases n,
{
    if n == 0 {
        assert(iter_wrap_inc(v, 1) == wrap_inc(iter_wrap_inc(v, 0)));
    } else {
        lemma_iter_wrap_inc_shift(v, (n - 1) as nat);
        assert(iter_wrap_inc(wrap_inc(v), n) == wrap_inc(iter_wrap_inc(wrap_inc(v), (n - 1) as nat)));
        assert(iter_wrap_inc(v, n + 1) == wrap_inc(iter_wrap_inc(v, n)));
    }
}

/// Every remaining character is inert: the machine walks to the end of
/// the program changing nothing but the instruction cursor.
proof fn lemma_inert_run_from(s: State)
    requires
        0 <= s.pc <= s.tokens.len(),
        forall|i: int| s.pc <= i < s.tokens.len() ==> !is_instruction(#[trigger] s.tokens[i]),
    ensures
        run_steps(s, (s.tokens.len() - s.pc) as nat) == Outcome::Halted(
            State { pc: s.tokens.len() as int, ..s },
        ),
    decreases s.tokens.len() - s.pc,
{
    if s.pc == s.tokens.len() {
        assert((State { pc: s.tokens.len() as int, ..s }) =~= s);
    } else {
        let s2 = State { pc: s.pc + 1, ..s };
        assert(step(s) == StepResult::Next(s2));
        lemma_inert_run_from(s2);
        assert((State { pc: s2.tokens.len() as int, ..s2 }) =~= (State {
            pc: s.tokens.len() as int,
            ..s
        }));
    }
}

/// A program consisting solely of inert characters halts after one step
/// per character with empty output, having read no input and touched no
/// cell: only the instruction cursor moved.
pub proof fn lemma_inert_program(program: Seq<char>, input: Seq<char>)
    requires
        forall|i: int| 0 <= i < program.len() ==> !is_instruction(#[trigger] program[i]),
    ensures
        run_steps(init_state(program, input), program.len()) == Outcome::Halted(
            State { pc: program.len() as int, ..init_state(program, input) },
        ),
        (run_steps(init_state(program, input), program.len()) matches Outcome::Halted(f)
            && f.output == Seq::<char>::empty() && f.input_cursor == 0),
{
    lemma_inert_run_from(init_state(program, input));
}

/// A block of `k` increment instructions adds `k` to the active cell,
/// modulo 256, and does nothing else.
proof fn lemma_plus_block(s: State, k: nat)
    requires
        s.memory.len() == MEMORY_SIZE,
        0 <= s.pc,
        s.pc + k <= s.tokens.len(),
        forall|i: int| 0 <= i < k ==> #[trigger] s.tokens[s.pc + i] == '+',
    ensures
        run_steps(s, k) == outcome_of(
            State {
                pc: s.pc + k,
                memory: s.memory.update(s.memory_cursor as int, iter_wrap_inc(cell(s), k)),
                ..s
            },
        ),
    decreases k,
{
    if k == 0 {
        assert((State {
            pc: s.pc + 0,
            memory: s.memory.update(s.memory_cursor as int, cell(s)),
            ..s
        }) =~= s);
    } else {
        assert(s.tokens[s.pc + 0] == '+');
        let s1 = State {
            pc: s.pc + 1,
            memory: s.memory.update(s.memory_cursor as int, wrap_inc(cell(s))),
            ..s
        };
        assert(step(s) == StepResult::Next(s1));
        assert(cell(s1) == wrap_inc(cell(s)));
        assert forall|i: int| 0 <= i < k - 1 implies #[trigger] s1.tokens[s1.pc + i] == '+' by {
            assert(s.tokens[s.pc + (i + 1)] == '+');
        }
        lemma_plus_block(s1, (k - 1) as nat);
        lemma_iter_wrap_inc_shift(cell(s), (k - 1) as nat);
        assert((State {
            pc: s1.pc + (k - 1),
            memory: s1.memory.update(s1.memory_cursor as int, iter_wrap_inc(cell(s1), (k - 1) as nat)),
            ..s1
        }) =~= (State {
            pc: s.pc + k,
            memory: s.memory.update(s.memory_cursor as int, iter_wrap_inc(cell(s), k)),
            ..s
        }));
    }
}

/// Cell arithmetic is modulo 256: a block of 256 increment instructions
/// returns the active cell — and with it the whole tape — to exactly its
/// starting value; only the instruction cursor has advanced.
pub proof fn lemma_increment_cycle(s: State)
    requires
        s.memory.len() == MEMORY_SIZE,
        0 <= s.pc,
        s.pc + 256 <= s.tokens.len(),
        forall|i: int| 0 <= i < 256 ==> #[trigger] s.tokens[s.pc + i] == '+',
    ensures
        run_steps(s, 256) == outcome_of(State { pc: s.pc + 256, ..s }),
{
    lemma_plus_block(s, 256);
    lemma_wrap_cycle(cell(s));
    assert((State {
        pc: s.pc + 256,
        memory: s.memory.update(s.memory_cursor as int, cell(s)),
        ..s
    }) =~= (State { pc: s.pc + 256, ..s }));
}

/// Decrementing a cell that holds zero wraps it to 255.
pub proof fn lemma_decrement_wraps(s: State)
    requires
        s.memory.len() == MEMORY_SIZE,
        0 <= s.pc < s.tokens.len(),
        s.tokens[s.pc] == '-',
        cell(s) == 0,
    ensures
        step(s) == StepResult::Next(
            State { memory: s.memory.update(s.memory_cursor as int, 255u8), pc: s.pc + 1, ..s },
        ),
{
}

/// A block of `k` move-right instructions adds `k` to the tape cursor,
/// modulo 256, and does nothing else.
proof fn lemma_right_block(s: State, k: nat)
    requires
        0 <= s.pc,
        s.pc + k <= s.tokens.len(),
        forall|i: int| 0 <= i < k ==> #[trigger] s.tokens[s.pc + i] == '>',
    ensures
        run_steps(s, k) == outcome_of(
            State { pc: s.pc + k, memory_cursor: iter_wrap_inc(s.memory_cursor, k), ..s },
        ),
    decreases k,
{
    if k == 0 {
        assert((State { pc: s.pc + 0, memory_cursor: s.memory_cursor, ..s }) =~= s);
    } else {
        assert(s.tokens[s.pc + 0] == '>');
        let s1 = State { pc: s.pc + 1, memory_cursor: wrap_inc(s.memory_cursor), ..s };
        assert(step(s) == StepResult::Next(s1));
        assert forall|i: int| 0 <= i < k - 1 implies #[trigger] s1.tokens[s1.pc + i] == '>' by {
            assert(s.tokens[s.pc + (i + 1)] == '>');
        }
        lemma_right_block(s1, (k - 1) as nat);
        lemma_iter_wrap_inc_shift(s.memory_cursor, (k - 1) as nat);
        assert((State {
            pc: s1.pc + (k - 1),
            memory_cursor: iter_wrap_inc(s1.memory_cursor, (k - 1) as nat),
            ..s1
        }) =~= (State { pc: s.pc + k, memory_cursor: iter_wrap_inc(s.memory_cursor, k), ..s }));
    }
}

/// Tape-cursor movement is modulo 256: a block of 256 move-right
/// instructions returns the cursor to its starting cell; only the
/// instruction cursor has advanced.
pub proof fn lemma_move_right_cycle(s: State)
    requires
        0 <= s.pc,
        s.pc + 256 <= s.tokens.len(),
        forall|i: int| 0 <= i < 256 ==> #[trigger] s.tokens[s.pc + i] == '>',
    ensures
        run_steps(s, 256) == outcome_of(State { pc: s.pc + 256, ..s }),
{
    lemma_right_block(s, 256);
    lemma_wrap_cycle(s.memory_cursor);
    assert((State { pc: s.pc + 256, memory_cursor: s.memory_cursor, ..s }) =~= (State {
        pc: s.pc + 256,
        ..s
    }));
}

/// The state one step after entering a loop whose condition cell is
/// zero: just past the first loop close, the open's position pushed,
/// and everything else — tape, cursors, output, input — untouched.
pub open spec fn loop_entry_skipped(s: State, close: int) -> State {
    State { pc: close + 1, loop_stack: s.loop_stack.push(s.pc), ..s }
}

/// A loop whose condition cell is already zero on entry never executes
/// its body: a single step lands just past the loop close, and the whole
/// rest of the run is the run that starts there — as if the loop were
/// not there, except for the position pushed onto the loop stack.
pub proof fn lemma_zero_loop_skips(s: State, close: int)
    requires
        0 <= s.pc < s.tokens.len(),
        s.tokens[s.pc] == '[',
        cell(s) == 0,
        scan_close(s.tokens, s.pc) == Some(close),
    ensures
        step(s) == StepResult::Next(loop_entry_skipped(s, close)),
        forall|n: nat| run_steps(s, n + 1) == #[trigger] run_steps(loop_entry_skipped(s, close), n),
{
    assert forall|n: nat|
        run_steps(s, n + 1) == #[trigger] run_steps(loop_entry_skipped(s, close), n) by {
        assert(run_steps(s, n + 1) == run_steps(loop_entry_skipped(s, close), n));
    }
}

/// The repeating part of a countdown loop: the cursor stands on the `-`
/// of `[-]` with the loop open just behind it on the stack; each pass of
/// the body costs two steps and lowers the cell by one, until the cell
/// reaches zero and control falls past the loop close.
proof fn lemma_countdown_iters(t: State)
    requires
        t.memory.len() == MEMORY_SIZE,
        0 <= t.pc - 1,
        t.pc + 2 <= t.tokens.len(),
        t.tokens[t.pc] == '-',
        t.tokens[t.pc + 1] == ']',
        t.loop_stack.len() > 0,
        t.loop_stack.last() == t.pc - 1,
        cell(t) >= 1,
    ensures
        run_steps(t, (2 * cell(t)) as nat) == outcome_of(
            State { pc: t.pc + 2, memory: t.memory.update(t.memory_cursor as int, 0u8), ..t },
        ),
    decreases cell(t),
{
    let v = cell(t);
    let t1 = State { memory: t.memory.update(t.memory_cursor as int, wrap_dec(v)), pc: t.pc + 1, ..t };
    assert(step(t) == StepResult::Next(t1));
    assert(cell(t1) == wrap_dec(v));
    if v == 1 {
        let t2 = State { pc: t1.pc + 1, ..t1 };
        assert(step(t1) == StepResult::Next(t2));
        assert(run_steps(t, 2) == run_steps(t1, 1));
        assert(run_steps(t1, 1) == run_steps(t2, 0));
        assert(run_steps(t2, 0) == outcome_of(t2));
        assert(t2 =~= (State {
            pc: t.pc + 2,
            memory: t.memory.update(t.memory_cursor as int, 0u8),
            ..t
        }));
    } else {
        let t2 = State { pc: t.loop_stack.last() + 1, ..t1 };
        assert(step(t1) == StepResult::Next(t2));
        assert(t2.pc == t.pc);
        lemma_countdown_iters(t2);
        assert(run_steps(t, (2 * v) as nat) == run_steps(t1, (2 * v - 1) as nat));
        assert(run_steps(t1, (2 * v - 1) as nat) == run_steps(t2, (2 * v - 2) as nat));
        assert((State {
            pc: t2.pc + 2,
            memory: t2.memory.update(t2.memory_cursor as int, 0u8),
            ..t2
        }) =~= (State { pc: t.pc + 2, memory: t.memory.update(t.memory_cursor as int, 0u8), ..t }));
    }
}

/// A countdown loop executes its body exactly as many times as the
/// condition cell's starting value: entering `[-]` with the cell at `v`
/// takes `1 + 2 * v` steps — one per executed instruction, so the body
/// runs `v` times — and ends just past the loop close with the cell at
/// zero and nothing else changed but the pushed loop position.
pub proof fn lemma_countdown_loop(s: State)
    requires
        s.memory.len() == MEMORY_SIZE,
        0 <= s.pc,
        s.pc + 3 <= s.tokens.len(),
        s.tokens[s.pc] == '[',
        s.tokens[s.pc + 1] == '-',
        s.tokens[s.pc + 2] == ']',
    ensures
        run_steps(s, (1 + 2 * cell(s)) as nat) == outcome_of(
            State {
                pc: s.pc + 3,
                loop_stack: s.loop_stack.push(s.pc),
                memory: s.memory.update(s.memory_cursor as int, 0u8),
                ..s
            },
        ),
{
    let v = cell(s);
    if v == 0 {
        assert(scan_close(s.tokens, s.pc + 2) == Some(s.pc + 2));
        assert(scan_close(s.tokens, s.pc + 1) == Some(s.pc + 2));
        assert(scan_close(s.tokens, s.pc) == Some(s.pc + 2));
        let s1 = State { loop_stack: s.loop_stack.push(s.pc), pc: s.pc + 3, ..s };
        assert(step(s) == StepResult::Next(s1));
        assert(run_steps(s, 1) == run_steps(s1, 0));
        assert(run_steps(s1, 0) == outcome_of(s1));
        assert(s1 =~= (State {
            pc: s.pc + 3,
            loop_stack: s.loop_stack.push(s.pc),
            memory: s.memory.update(s.memory_cursor as int, 0u8),
            ..s
        }));
    } else {
        let s1 = State { loop_stack: s.loop_stack.push(s.pc), pc: s.pc + 1, ..s };
        assert(step(s) == StepResult::Next(s1));
        assert(cell(s1) == v);
        assert(s1.loop_stack.last() == s.pc);
        lemma_countdown_iters(s1);
        assert(run_steps(s, (1 + 2 * v) as nat) == run_steps(s1, (2 * v) as nat));
        assert((State {
            pc: s1.pc + 2,
            memory: s1.memory.update(s1.memory_cursor as int, 0u8),
            ..s1
        }) =~= (State {
            pc: s.pc + 3,
            loop_stack: s.loop_stack.push(s.pc),
            memory: s.memory.update(s.memory_cursor as int, 0u8),
            ..s
        }));
    }
}

/// Is `c` free of control flow and of I/O — an instruction (or inert
/// character) that touches only the tape? A run of such characters is a
/// straight-line body: no loops, no reads, no writes.
pub open spec fn is_straight_line(c: char) -> bool {
    c != ',' && c != '.' && c != '[' && c != ']'
}

/// What one straight-line character does to the tape and its cursor.
pub open spec fn block_step(c: char, mem: Seq<u8>, cur: u8) -> (Seq<u8>, u8) {
    if c == '+' {
        (mem.update(cur as int, wrap_inc(mem[cur as int])), cur)
    } else if c == '-' {
        (mem.update(cur as int, wrap_dec(mem[cur as int])), cur)
    } else if c == '>' {
        (mem, wrap_inc(cur))
    } else if c == '<' {
        (mem, wrap_dec(cur))
    } else {
        (mem, cur)
    }
}

/// What a whole straight-line body does to the tape and its cursor.
pub open spec fn block_effect(body: Seq<char>, mem: Seq<u8>, cur: u8) -> (Seq<u8>, u8)
    decreases body.len(),
{
    if body.len() == 0 {
        (mem, cur)
    } else {
        let e = block_step(body[0], mem, cur);
        block_effect(body.drop_first(), e.0, e.1)
    }
}

/// The tape after `n` passes of a body whose every pass returns the
/// cursor to `cur`.
pub open spec fn iter_block_effect(body: Seq<char>, mem: Seq<u8>, cur: u8, n: nat) -> Seq<u8>
    decreases n,
{
    if n == 0 {
        mem
    } else {
        iter_block_effect(body, block_effect(body, mem, cur).0, cur, (n - 1) as nat)
    }
}

/// One pass of the body, from any tape, brings the cursor back where it
/// started and lowers the cell there by exactly one.
pub open spec fn body_counts_down(body: Seq<char>) -> bool {
    forall|mem: Seq<u8>, cur: u8|
        mem.len() == MEMORY_SIZE ==> ({
            let e = #[trigger] block_effect(body, mem, cur);
            e.1 == cur && e.0.len() == mem.len() && e.0[cur as int] == wrap_dec(mem[cur as int])
        })
}

/// Executing a straight-line block is one machine step per character,
/// and its whole effect on the state is `block_effect`.
proof fn lemma_block_run(s: State, body: Seq<char>)
    requires
        s.memory.len() == MEMORY_SIZE,
        0 <= s.pc,
        s.pc + body.len() <= s.tokens.len(),
        forall|i: int| 0 <= i < body.len() ==> #[trigger] s.tokens[s.pc + i] == body[i],
        forall|i: int| 0 <= i < body.len() ==> is_straight_line(#[trigger] body[i]),
    ensures
        ({
            let e = block_effect(body, s.memory, s.memory_cursor);
            run_steps(s, body.len()) == outcome_of(
                State { pc: s.pc + body.len(), memory: e.0, memory_cursor: e.1, ..s },
            )
        }),
    decreases body.len(),
{
    if body.len() == 0 {
        assert((State {
            pc: s.pc + 0,
            memory: s.memory,
            memory_cursor: s.memory_cursor,
            ..s
        }) =~= s);
    } else {
        let c = body[0];
        assert(s.tokens[s.pc + 0] == c);
        assert(is_straight_line(body[0]));
        let e1 = block_step(c, s.memory, s.memory_cursor);
        let s1 = State { pc: s.pc + 1, memory: e1.0, memory_cursor: e1.1, ..s };
        assert(step(s) matches StepResult::Next(x) && x =~= s1);
        let rest = body.drop_first();
        assert forall|i: int| 0 <= i < rest.len() implies #[trigger] s1.tokens[s1.pc + i]
            == rest[i] by {
            assert(s.tokens[s.pc + (i + 1)] == body[i + 1]);
        }
        assert forall|i: int| 0 <= i < rest.len() implies is_straight_line(#[trigger] rest[i]) by {
            assert(is_straight_line(body[i + 1]));
        }
        lemma_block_run(s1, rest);
        let e = block_effect(body, s.memory, s.memory_cursor);
        let er = block_effect(rest, e1.0, e1.1);
        assert(e == er);
        assert((State { pc: s1.pc + rest.len(), memory: er.0, memory_cursor: er.1, ..s1 }) =~= (
        State { pc: s.pc + body.len(), memory: e.0, memory_cursor: e.1, ..s }));
    }
}

/// The forward scan walks over characters that are not `]` and stops at
/// the first one that is.
proof fn lemma_scan_close_skips_plain(tokens: Seq<char>, from: int, close: int)
    requires
        0 <= from <= close < tokens.len(),
        forall|i: int| from <= i < close ==> #[trigger] tokens[i] != ']',
        tokens[close] == ']',
    ensures
        scan_close(tokens, from) == Some(close),
    decreases close - from,
{
    if from < close {
        lemma_scan_close_skips_plain(tokens, from + 1, close);
    }
}

/// Each pass of a counting-down body lowers the condition cell by one,
/// so after `n` passes it has lost exactly `n`.
proof fn lemma_iter_effect_cell(body: Seq<char>, mem: Seq<u8>, cur: u8, n: nat)
    requires
        body_counts_down(body),
        mem.len() == MEMORY_SIZE,
        n <= mem[cur as int],
    ensures
        iter_block_effect(body, mem, cur, n).len() == MEMORY_SIZE,
        iter_block_effect(body, mem, cur, n)[cur as int] == mem[cur as int] - n,
    decreases n,
{
    if n > 0 {
        let e = block_effect(body, mem, cur);
        lemma_iter_effect_cell(body, e.0, cur, (n - 1) as nat);
    }
}

/// The repeating part of a countdown loop with a straight-line body:
/// the cursor stands on the body's first character with the loop open
/// just behind it on the stack; each pass costs one step per body
/// character plus one for the loop close, and lowers the condition cell
/// by one, until it reaches zero and control falls past the close.
proof fn lemma_countdown_passes(t: State, body: Seq<char>)
    requires
        t.memory.len() == MEMORY_SIZE,
        1 <= t.pc,
        t.pc + body.len() + 1 <= t.tokens.len(),
        forall|i: int| 0 <= i < body.len() ==> #[trigger] t.tokens[t.pc + i] == body[i],
        forall|i: int| 0 <= i < body.len() ==> is_straight_line(#[trigger] body[i]),
        t.tokens[t.pc + body.len()] == ']',
        body_counts_down(body),
        t.loop_stack.len() > 0,
        t.loop_stack.last() == t.pc - 1,
        cell(t) >= 1,
    ensures
        run_steps(t, ((body.len() + 1) * cell(t)) as nat) == outcome_of(
            State {
                pc: t.pc + body.len() + 1,
                memory: iter_block_effect(body, t.memory, t.memory_cursor, cell(t) as nat),
                ..t
            },
        ),
    decreases cell(t),
{
    let v = cell(t);
    let len = body.len();
    let e = block_effect(body, t.memory, t.memory_cursor);
    lemma_block_run(t, body);
    let tb = State { pc: t.pc + len, memory: e.0, memory_cursor: e.1, ..t };
    assert(run_steps(t, len) == Outcome::Running(tb));
    assert(cell(tb) == wrap_dec(v));
    if v == 1 {
        let t2 = State { pc: tb.pc + 1, ..tb };
        assert(step(tb) == StepResult::Next(t2));
        lemma_run_steps_add(t, len, 1, tb);
        assert(run_steps(tb, 1) == run_steps(t2, 0));
        assert(run_steps(t2, 0) == outcome_of(t2));
        assert(((len + 1) * v) as nat == len + 1) by (nonlinear_arith)
            requires
                v == 1,
        ;
        assert(iter_block_effect(body, t.memory, t.memory_cursor, 1) == iter_block_effect(
            body,
            e.0,
            t.memory_cursor,
            0,
        ));
        assert(iter_block_effect(body, e.0, t.memory_cursor, 0) == e.0);
        assert(t2 =~= (State {
            pc: t.pc + len + 1,
            memory: iter_block_effect(body, t.memory, t.memory_cursor, 1),
            ..t
        }));
    } else {
        let t2 = State { pc: t.loop_stack.last() + 1, ..tb };
        assert(step(tb) == StepResult::Next(t2));
        assert(t2.pc == t.pc);
        assert(cell(t2) == v - 1);
        lemma_countdown_passes(t2, body);
        let inner: nat = ((len + 1) * (v - 1)) as nat;
        lemma_run_steps_add(t, len, inner + 1, tb);
        assert(run_steps(tb, inner + 1) == run_steps(t2, inner));
        assert((len + 1) * v == len + (inner + 1)) by (nonlinear_arith)
            requires
                v >= 1,
                len >= 0,
                inner == (len + 1) * (v - 1),
        ;
        assert((State {
            pc: t2.pc + len + 1,
            memory: iter_block_effect(body, t2.memory, t2.memory_cursor, (v - 1) as nat),
            ..t2
        }) =~= (State {
            pc: t.pc + len + 1,
            memory: iter_block_effect(body, t.memory, t.memory_cursor, v as nat),
            ..t
        }));
    }
}

/// A loop whose straight-line body lowers the condition cell by one per
/// pass executes that body exactly as many times as the cell's starting
/// value `v`: entering it takes `1 + (body length + 1) * v` steps — one
/// per executed instruction — and ends just past the loop close with
/// the condition cell at zero, the tape transformed by `v` passes of
/// the body, and nothing else changed but the pushed loop position.
pub proof fn lemma_straight_line_countdown(s: State, body: Seq<char>)
    requires
        s.memory.len() == MEMORY_SIZE,
        0 <= s.pc,
        s.pc + body.len() + 2 <= s.tokens.len(),
        s.tokens[s.pc] == '[',
        forall|i: int| 0 <= i < body.len() ==> #[trigger] s.tokens[s.pc + 1 + i] == body[i],
        forall|i: int| 0 <= i < body.len() ==> is_straight_line(#[trigger] body[i]),
        s.tokens[s.pc + 1 + body.len()] == ']',
        body_counts_down(body),
    ensures
        run_steps(s, (1 + (body.len() + 1) * cell(s)) as nat) == outcome_of(
            State {
                pc: s.pc + body.len() + 2,
                loop_stack: s.loop_stack.push(s.pc),
                memory: iter_block_effect(body, s.memory, s.memory_cursor, cell(s) as nat),
                ..s
            },
        ),
        iter_block_effect(body, s.memory, s.memory_cursor, cell(s) as nat)[s.memory_cursor as int]
            == 0,
{
    let v = cell(s);
    let len = body.len();
    lemma_iter_effect_cell(body, s.memory, s.memory_cursor, v as nat);
    if v == 0 {
        assert forall|i: int| s.pc <= i < s.pc + 1 + len implies #[trigger] s.tokens[i] != ']' by {
            if i > s.pc {
                assert(s.tokens[s.pc + 1 + (i - s.pc - 1)] == body[i - s.pc - 1]);
                assert(is_straight_line(body[i - s.pc - 1]));
            }
        }
        lemma_scan_close_skips_plain(s.tokens, s.pc, s.pc + 1 + len);
        let s1 = State { loop_stack: s.loop_stack.push(s.pc), pc: s.pc + len + 2, ..s };
        assert(step(s) == StepResult::Next(s1));
        assert(run_steps(s, 1) == run_steps(s1, 0));
        assert(run_steps(s1, 0) == outcome_of(s1));
        assert(s1 =~= (State {
            pc: s.pc + len + 2,
            loop_stack: s.loop_stack.push(s.pc),
            memory: iter_block_effect(body, s.memory, s.memory_cursor, 0),
            ..s
        }));
    } else {
        let s1 = State { loop_stack: s.loop_stack.push(s.pc), pc: s.pc + 1, ..s };
        assert(step(s) == StepResult::Next(s1));
        assert forall|i: int| 0 <= i < len implies #[trigger] s1.tokens[s1.pc + i] == body[i] by {
            assert(s.tokens[s.pc + 1 + i] == body[i]);
        }
        assert(cell(s1) == v);
        assert(s1.loop_stack.last() == s.pc);
        lemma_countdown_passes(s1, body);
        let inner: nat = ((len + 1) * v) as nat;
        assert(run_steps(s, inner + 1) == run_steps(s1, inner));
        assert((1 + (len + 1) * v) as nat == inner + 1);
        assert((State {
            pc: s1.pc + len + 1,
            memory: iter_block_effect(body, s1.memory, s1.memory_cursor, v as nat),
            ..s1
        }) =~= (State {
            pc: s.pc + len + 2,
            loop_stack: s.loop_stack.push(s.pc),
            memory: iter_block_effect(body, s.memory, s.memory_cursor, v as nat),
            ..s
        }));
    }
}

/// A read instruction executed after the input sequence is exhausted
/// always fails the run with `InputExhausted`; it never silently yields
/// a default cell value.
pub proof fn lemma_input_exhausted(s: State)
    requires
        0 <= s.pc < s.tokens.len(),
        s.tokens[s.pc] == ',',
        s.input_cursor >= s.input.len(),
    ensures
        step(s) == StepResult::Fail(ErrorKind::InputExhausted),
        forall|n: nat| n >= 1 ==> #[trigger] run_steps(s, n) == Outcome::Failed(
            ErrorKind::InputExhausted,
        ),
{
    assert forall|n: nat|
        n >= 1 implies #[trigger] run_steps(s, n) == Outcome::Failed(
        ErrorKind::InputExhausted,
    ) by {
        assert(run_steps(s, n) == Outcome::Failed(ErrorKind::InputExhausted));
    }
}

} // verus!
