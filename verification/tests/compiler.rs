use zkeval::compiler::compile_brainfuck;
use zkeval::lang::program_from_source;
use zkeval::Error;

#[test]
fn scenario_unbalanced_programs_fail() {
    let p1 = program_from_source(b"[[]");
    assert_eq!(compile_brainfuck(&p1), Err(Error::UnmatchedBracket));
    let p2 = program_from_source(b"[]]");
    assert_eq!(compile_brainfuck(&p2), Err(Error::UnmatchedBracket));
}

#[test]
fn compilation_is_deterministic() {
    let program = program_from_source(b"++[>,.<-]");
    let first = compile_brainfuck(&program).unwrap();
    let second = compile_brainfuck(&program).unwrap();
    assert_eq!(first, second);
}

#[test]
fn straight_line_commands_lower_one_by_one() {
    let program = program_from_source(b"><+-");
    let text = compile_brainfuck(&program).unwrap();
    assert_eq!(text, "inc_dp;\ndec_dp;\ninc_cell;\ndec_cell;\nreturn;");
}

#[test]
fn read_and_write_lower_to_the_io_sequences() {
    let program = program_from_source(b",.");
    let text = compile_brainfuck(&program).unwrap();
    let expected = "data <=X= ${ Query::Input(std::convert::int(std::prover::eval(in_ptr))) };\nmstore data;\nin_ptr <=X= in_ptr + 1;\ndata <== mload();\ndata <=X= ${ Query::Output(1, std::convert::int(std::prover::eval(data))) };\nreturn;";
    assert_eq!(text, expected);
}

#[test]
fn a_loop_lowers_to_labels_branch_and_jump() {
    let program = program_from_source(b"[-]");
    let text = compile_brainfuck(&program).unwrap();
    let expected = "loop_true_0:\ndata <== mload();\nbranch_if_zero data, loop_false_0;\ndec_cell;\njump loop_true_0;\nloop_false_0:\nreturn;";
    assert_eq!(text, expected);
}

#[test]
fn labels_are_numbered_in_scan_order_of_loop_opens() {
    let program = program_from_source(b"[[]][]");
    let text = compile_brainfuck(&program).unwrap();
    let expected = "loop_true_0:\ndata <== mload();\nbranch_if_zero data, loop_false_0;\nloop_true_1:\ndata <== mload();\nbranch_if_zero data, loop_false_1;\njump loop_true_1;\nloop_false_1:\njump loop_true_0;\nloop_false_0:\nloop_true_2:\ndata <== mload();\nbranch_if_zero data, loop_false_2;\njump loop_true_2;\nloop_false_2:\nreturn;";
    assert_eq!(text, expected);
}

#[test]
fn an_empty_program_still_returns() {
    let program = program_from_source(b"");
    let text = compile_brainfuck(&program).unwrap();
    assert_eq!(text, "return;");
}

#[test]
fn labels_reach_double_digits() {
    // Eleven consecutive loops: the last one draws label number 10.
    let program = program_from_source(b"[][][][][][][][][][][]");
    let text = compile_brainfuck(&program).unwrap();
    assert!(text.contains("loop_true_10:\n"));
    assert!(text.contains("branch_if_zero data, loop_false_10;\n"));
    assert!(!text.contains("loop_true_11"));
}
