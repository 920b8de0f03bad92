use brainfuck::Brainfuck;
use brainfuck::ErrorKind;

/// A step budget far beyond what any test program needs to halt.
const BUDGET: u64 = 1_000_000;

fn run(program: &str, input: &str) -> Result<String, ErrorKind> {
    Brainfuck::run(String::from(program), String::from(input), BUDGET)
}

#[test]
fn empty_program_produces_no_output() {
    assert_eq!(run("", ""), Ok(String::new()));
}

#[test]
fn inert_program_produces_no_output_and_reads_no_input() {
    assert_eq!(run("hello world! this text has no instructions", "abc"), Ok(String::new()));
}

#[test]
fn increment_256_times_wraps_cell_back_to_zero() {
    let mut program = String::new();
    for _ in 0..256 {
        program.push('+');
    }
    program.push('.');
    assert_eq!(run(&program, ""), Ok(String::from("\u{0}")));
}

#[test]
fn decrement_from_zero_wraps_to_255() {
    assert_eq!(run("-.", ""), Ok(String::from("\u{ff}")));
}

#[test]
fn move_right_256_times_returns_to_starting_cell() {
    let mut program = String::from("+");
    for _ in 0..256 {
        program.push('>');
    }
    program.push('.');
    assert_eq!(run(&program, ""), Ok(String::from("\u{1}")));
}

#[test]
fn loop_with_zero_cell_skips_its_body() {
    // The body's output instruction never runs; execution resumes just
    // past the first `]`, where the cell is decremented and printed.
    assert_eq!(run("[+.]-.", ""), Ok(String::from("\u{ff}")));
}

#[test]
fn countdown_loop_runs_body_once_per_initial_cell_value() {
    // Each of the three passes moves right, increments, moves back and
    // decrements: the neighbour cell counts the iterations.
    assert_eq!(run("+++[>+<-]>.", ""), Ok(String::from("\u{3}")));
}

#[test]
fn countdown_loop_leaves_condition_cell_at_zero() {
    assert_eq!(run("+++[-].", ""), Ok(String::from("\u{0}")));
}

#[test]
fn three_increments_output_byte_three() {
    assert_eq!(run("+++.", ""), Ok(String::from("\u{3}")));
}

#[test]
fn echo_single_character() {
    assert_eq!(run(",.", "A"), Ok(String::from("A")));
}

#[test]
fn multiply_two_by_four_outputs_byte_eight() {
    assert_eq!(run("++[>++++<-]>.", ""), Ok(String::from("\u{8}")));
}

#[test]
fn greeting_program_prints_hello_world() {
    let program = "++++++++++[>+++++++>++++++++++>+++>+<<<<-]>++.>+.+++++++..+++.>++.<<+++++++++++++++.>.+++.------.--------.>+.>.";
    assert_eq!(run(program, ""), Ok(String::from("Hello World!\n")));
}

#[test]
fn reading_with_no_input_fails_with_input_exhausted() {
    assert_eq!(run(",", ""), Err(ErrorKind::InputExhausted));
}

#[test]
fn reading_past_the_end_of_input_fails_with_input_exhausted() {
    assert_eq!(run(",,.", "A"), Err(ErrorKind::InputExhausted));
}

#[test]
fn input_code_points_are_truncated_to_eight_bits() {
    // U+0100 truncates to byte zero.
    assert_eq!(run(",.", "\u{100}"), Ok(String::from("\u{0}")));
}

#[test]
fn close_needing_a_jump_with_empty_stack_fails() {
    assert_eq!(run("+]", ""), Err(ErrorKind::UnmatchedLoopClose));
}

#[test]
fn close_with_zero_cell_falls_through_even_with_empty_stack() {
    assert_eq!(run("]", ""), Ok(String::new()));
}

#[test]
fn skip_scan_past_end_of_program_fails() {
    assert_eq!(run("[", ""), Err(ErrorKind::ProgramIndexOutOfRange));
}

#[test]
fn open_with_nonzero_cell_never_scans() {
    // The forward scan only runs when the cell is zero, so the missing
    // close is never noticed: the run just walks off the end.
    assert_eq!(run("+[", ""), Ok(String::new()));
}

#[test]
fn non_halting_program_exceeds_step_budget() {
    let r = Brainfuck::run(String::from("+[]"), String::new(), 1000);
    assert_eq!(r, Err(ErrorKind::StepLimitExceeded));
}

#[test]
fn evaluate_runs_a_freshly_built_machine() {
    let mut vm = Brainfuck::new(String::from("+."), String::new());
    assert_eq!(vm.evaluate(10), Ok(String::from("\u{1}")));
}
