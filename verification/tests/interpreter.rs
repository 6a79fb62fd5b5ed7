use std::collections::VecDeque;

use zkeval::interpreter::run;
use zkeval::lang::program_from_source;
use zkeval::Error;

fn queue(vals: &[u32]) -> VecDeque<u32> {
    let mut q = VecDeque::new();
    for v in vals {
        q.push_back(*v);
    }
    q
}

#[test]
fn scenario_plus_then_write() {
    let program = program_from_source(b"+++.");
    let (count, output) = run(program, VecDeque::new()).unwrap();
    assert_eq!(output, vec![3u8]);
    assert_eq!(count, 4);
}

#[test]
fn scenario_clear_loop_then_write() {
    let program = program_from_source(b"+++[-].");
    let (count, output) = run(program, VecDeque::new()).unwrap();
    assert_eq!(output, vec![0u8]);
    assert_eq!(count, 14);
}

#[test]
fn scenario_echo_one_input() {
    let program = program_from_source(b",.");
    let (count, output) = run(program, queue(&[65])).unwrap();
    assert_eq!(output, vec![65u8]);
    assert_eq!(count, 2);
}

#[test]
fn scenario_read_past_end_of_input() {
    // The end-of-stream sentinel is -1; truncated to a byte it prints 255.
    let program = program_from_source(b",.");
    let (count, output) = run(program, VecDeque::new()).unwrap();
    assert_eq!(output, vec![255u8]);
    assert_eq!(count, 2);
}

#[test]
fn loop_skip_executes_nothing_inside_the_body() {
    // The addressed cell starts at zero, so the loop body never runs: one
    // executed instruction (the loop-open), no output.
    let program = program_from_source(b"[-]");
    let (count, output) = run(program, VecDeque::new()).unwrap();
    assert_eq!(count, 1);
    assert_eq!(output, Vec::<u8>::new());
}

#[test]
fn empty_program_terminates_immediately() {
    let program = program_from_source(b"no commands here!");
    let (count, output) = run(program, VecDeque::new()).unwrap();
    assert_eq!(count, 0);
    assert_eq!(output, Vec::<u8>::new());
}

#[test]
fn comments_are_ignored_but_commands_kept() {
    let program = program_from_source(b"add two: ++ then print .");
    let (count, output) = run(program, VecDeque::new()).unwrap();
    assert_eq!(output, vec![2u8]);
    assert_eq!(count, 3);
}

#[test]
fn unmatched_close_bracket_is_reported() {
    let program = program_from_source(b"+]");
    assert_eq!(run(program, VecDeque::new()), Err(Error::UnmatchedBracket));
}

#[test]
fn dangling_open_bracket_is_reported() {
    let program = program_from_source(b"[+");
    assert_eq!(run(program, VecDeque::new()), Err(Error::UnmatchedBracket));
}

#[test]
fn moving_left_of_cell_zero_is_a_bounds_error() {
    let program = program_from_source(b"<");
    assert_eq!(run(program, VecDeque::new()), Err(Error::MemoryBoundsError));
}

#[test]
fn moving_past_the_last_cell_is_a_bounds_error() {
    let just_inside = ">".repeat(29999);
    let program = program_from_source(just_inside.as_bytes());
    assert!(run(program, VecDeque::new()).is_ok());

    let one_too_far = ">".repeat(30000);
    let program = program_from_source(one_too_far.as_bytes());
    assert_eq!(run(program, VecDeque::new()), Err(Error::MemoryBoundsError));
}

#[test]
fn cell_wraps_at_the_integer_width() {
    // Decrement below zero, then write: the byte truncation of -1 is 255.
    let program = program_from_source(b"-.");
    let (_, output) = run(program, VecDeque::new()).unwrap();
    assert_eq!(output, vec![255u8]);
}

#[test]
fn inputs_are_consumed_first_in_first_out() {
    let program = program_from_source(b",.>,.>,.");
    let (_, output) = run(program, queue(&[7, 8, 9])).unwrap();
    assert_eq!(output, vec![7u8, 8u8, 9u8]);
}

#[test]
fn loaded_text_and_parsed_inputs_run_together() {
    // The whole front half of the pipeline: source text through the loader,
    // input text through the parser, both into the interpreter.
    let program = program_from_source(b"read two and echo both: ,.,.");
    let inputs = zkeval::lang::parse_inputs(b" 72, 105 ").unwrap();
    let (count, output) = run(program, inputs).unwrap();
    assert_eq!(output, vec![72u8, 105u8]);
    assert_eq!(count, 4);
}

#[test]
fn nested_loops_multiply() {
    // 3 * 4 computed with nested loops, written from cell 2.
    let program = program_from_source(b"+++[>++++[>+<-]<-]>>.");
    let (_, output) = run(program, VecDeque::new()).unwrap();
    assert_eq!(output, vec![12u8]);
}
