use tiny_basic::ast::{Line, Stmt};
use tiny_basic::interpreter::{Interpreter, RuntimeError};
use tiny_basic::parser::parse;

const BOUND: u64 = 100_000;

fn run(src: &str) -> (Result<bool, RuntimeError>, Vec<String>) {
    let lines = parse(src).expect("parses");
    let mut interp = Interpreter::new(lines);
    let mut out = Vec::new();
    let r = interp.run(&mut out, BOUND);
    (r, out)
}

#[test]
fn fresh_interpreter_has_all_variables_zero() {
    let interp = Interpreter::new(Vec::new());
    for c in 'A'..='Z' {
        assert_eq!(interp.variable(c), Some(0));
    }
    assert_eq!(interp.variable('a'), None);
}

#[test]
fn array_index_equal_to_size_is_out_of_bounds() {
    let (r, _) = run("10 DIM A(5)\n20 LET A(5) = 1");
    assert_eq!(r, Err(RuntimeError::IndexOutOfBounds { array: 'A', index: 5, size: 5 }));
}

#[test]
fn array_element_reads_back() {
    let (r, out) = run("10 DIM A(5)\n20 LET A(4) = 1\n30 PRINT A(4)");
    assert_eq!(r, Ok(true));
    assert_eq!(out, vec!["1".to_string()]);
}

#[test]
fn counting_loop_prints_three() {
    let (r, out) = run("10 LET A = 1\n20 LET A = A + 1\n30 IF A < 3 THEN 20\n40 PRINT A");
    assert_eq!(r, Ok(true));
    assert_eq!(out.last().map(|s| s.as_str()), Some("3"));
}

#[test]
fn division_by_zero_prints_nothing() {
    let (r, out) = run("10 PRINT 1/0");
    assert_eq!(r, Err(RuntimeError::DivisionByZero));
    assert!(out.is_empty());
}

#[test]
fn goto_missing_line_fails_first() {
    let (r, out) = run("10 GOTO 99\n20 PRINT 1");
    assert_eq!(r, Err(RuntimeError::InvalidLineNumber(99)));
    assert!(out.is_empty());
}

#[test]
fn print_joins_items_with_spaces() {
    let (r, out) = run("10 PRINT \"A\", 1+2, \"B\"");
    assert_eq!(r, Ok(true));
    assert_eq!(out, vec!["A 3 B".to_string()]);
}

#[test]
fn division_truncates_toward_zero() {
    let (_, out) = run("10 LET A = -7/2\n20 PRINT A, 7/-2, 7/2");
    assert_eq!(out, vec!["-3 -3 3".to_string()]);
}

#[test]
fn comparisons_give_one_or_zero() {
    let (_, out) = run("10 PRINT 1<2, 2<1, 3=3, 3<>3, 2>=2, 1>2, 1<=0");
    assert_eq!(out, vec!["1 0 1 0 1 0 0".to_string()]);
}

#[test]
fn arithmetic_wraps() {
    let (_, out) = run("10 LET A = 2147483647\n20 PRINT A + 1");
    assert_eq!(out, vec!["-2147483648".to_string()]);
}

#[test]
fn end_stops_the_run() {
    let (r, out) = run("10 PRINT 1\n20 END\n30 PRINT 2");
    assert_eq!(r, Ok(true));
    assert_eq!(out, vec!["1".to_string()]);
}

#[test]
fn undimensioned_array_is_an_error() {
    let (r, _) = run("10 PRINT B(0)");
    assert_eq!(r, Err(RuntimeError::ArrayNotDimensioned('B')));
}

#[test]
fn negative_dim_is_an_error() {
    let lines = vec![
        Line { number: 10, stmt: Stmt::Dim('A', 0) },
        Line { number: 20, stmt: Stmt::Dim('B', -1) },
    ];
    let mut interp = Interpreter::new(lines);
    let mut out = Vec::new();
    let r = interp.run(&mut out, BOUND);
    assert_eq!(r, Err(RuntimeError::IndexOutOfBounds { array: 'B', index: -1, size: 0 }));
}

#[test]
fn endless_loop_stops_at_the_bound() {
    let lines = parse("10 GOTO 10").expect("parses");
    let mut interp = Interpreter::new(lines);
    let mut out = Vec::new();
    assert_eq!(interp.run(&mut out, 50), Ok(false));
    assert!(!interp.finished());
}

#[test]
fn second_run_starts_fresh() {
    let lines = parse("10 PRINT A\n20 LET A = A + 5").expect("parses");
    let mut interp = Interpreter::new(lines);
    let mut out = Vec::new();
    assert_eq!(interp.run(&mut out, BOUND), Ok(true));
    assert_eq!(interp.variable('A'), Some(5));
    assert_eq!(interp.run(&mut out, BOUND), Ok(true));
    assert_eq!(out, vec!["0".to_string(), "0".to_string()]);
}

#[test]
fn stepping_runs_line_by_line() {
    let lines = parse("10 LET B = 4\n20 PRINT B * B").expect("parses");
    let mut interp = Interpreter::new(lines);
    let mut out = Vec::new();
    assert_eq!(interp.step(&mut out), Ok(()));
    assert_eq!(interp.variable('B'), Some(4));
    assert!(out.is_empty());
    assert_eq!(interp.step(&mut out), Ok(()));
    assert_eq!(out, vec!["16".to_string()]);
    assert!(interp.finished());
}

#[test]
fn empty_program_finishes_at_once() {
    let mut interp = Interpreter::new(Vec::new());
    let mut out = Vec::new();
    assert_eq!(interp.run(&mut out, BOUND), Ok(true));
    assert!(out.is_empty());
}

#[test]
fn print_without_items_prints_an_empty_line() {
    let (r, out) = run("10 PRINT");
    assert_eq!(r, Ok(true));
    assert_eq!(out, vec![String::new()]);
}

#[test]
fn failing_statement_leaves_state_unchanged() {
    let lines = parse("10 LET A = 5\n20 LET A = 1/0").expect("parses");
    let mut interp = Interpreter::new(lines);
    let mut out = Vec::new();
    assert_eq!(interp.step(&mut out), Ok(()));
    assert_eq!(interp.step(&mut out), Err(RuntimeError::DivisionByZero));
    assert_eq!(interp.variable('A'), Some(5));
    assert!(!interp.finished());
}

#[test]
fn run_stops_at_the_failing_line() {
    let lines = parse("10 LET B = 2\n20 GOTO 99\n30 LET B = 3").expect("parses");
    let mut interp = Interpreter::new(lines);
    let mut out = Vec::new();
    assert_eq!(interp.run(&mut out, BOUND), Err(RuntimeError::InvalidLineNumber(99)));
    assert_eq!(interp.variable('B'), Some(2));
    assert_eq!(interp.step(&mut out), Err(RuntimeError::InvalidLineNumber(99)));
}
