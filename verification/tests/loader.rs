use std::collections::VecDeque;

use zkeval::lang::{parse_inputs, program_from_source};
use zkeval::Error;

fn queue(vals: &[u32]) -> VecDeque<u32> {
    let mut q = VecDeque::new();
    for v in vals {
        q.push_back(*v);
    }
    q
}

#[test]
fn loader_keeps_commands_appends_terminator() {
    let program = program_from_source(b"><+-.,[]");
    assert_eq!(program, vec![62, 60, 43, 45, 46, 44, 91, 93, 0]);
}

#[test]
fn loader_discards_everything_else() {
    let program = program_from_source(b"a b\nc#1 (not commands) {} ;");
    assert_eq!(program, vec![0]);
}

#[test]
fn loader_keeps_source_order() {
    let program = program_from_source(b"+ comment , another . [deep] <");
    assert_eq!(program, vec![43, 44, 46, 91, 93, 60, 0]);
}

#[test]
fn inputs_split_on_commas() {
    assert_eq!(parse_inputs(b"1,2,3"), Ok(queue(&[1, 2, 3])));
}

#[test]
fn inputs_trim_whitespace_per_field() {
    assert_eq!(parse_inputs(b" 10 ,\t20\n, 30"), Ok(queue(&[10, 20, 30])));
}

#[test]
fn inputs_skip_empty_fields() {
    assert_eq!(parse_inputs(b"1,,2,"), Ok(queue(&[1, 2])));
    assert_eq!(parse_inputs(b""), Ok(queue(&[])));
    assert_eq!(parse_inputs(b" , "), Ok(queue(&[])));
}

#[test]
fn inputs_accept_a_leading_plus() {
    assert_eq!(parse_inputs(b"+65"), Ok(queue(&[65])));
}

#[test]
fn inputs_accept_the_largest_value() {
    assert_eq!(parse_inputs(b"4294967295"), Ok(queue(&[4294967295])));
}

#[test]
fn inputs_reject_overflow() {
    assert_eq!(parse_inputs(b"4294967296"), Err(Error::ParseError));
    assert_eq!(parse_inputs(b"99999999999999999999"), Err(Error::ParseError));
}

#[test]
fn inputs_reject_non_numeric_fields() {
    assert_eq!(parse_inputs(b"1,x,3"), Err(Error::ParseError));
    assert_eq!(parse_inputs(b"-5"), Err(Error::ParseError));
    assert_eq!(parse_inputs(b"1 2"), Err(Error::ParseError));
    assert_eq!(parse_inputs(b"+"), Err(Error::ParseError));
}
