use tiny_basic::ast::{BinaryOp, Expr, Line, PrintItem, Stmt};
use tiny_basic::format::{format_expr, format_line, parse_program};
use tiny_basic::interpreter::RuntimeError;
use tiny_basic::lexer::Lexer;
use tiny_basic::parser::{parse, ParseError};

#[test]
fn binary_expressions_are_parenthesised() {
    let e = Expr::Binary {
        left: Box::new(Expr::Number(1)),
        op: BinaryOp::Add,
        right: Box::new(Expr::Binary {
            left: Box::new(Expr::ArrayAccess('A', Box::new(Expr::Variable('I')))),
            op: BinaryOp::Ne,
            right: Box::new(Expr::Number(-3)),
        }),
    };
    assert_eq!(format_expr(&e), "(1 + (A(I) <> -3))");
}

#[test]
fn each_statement_renders_as_source() {
    let cases = vec![
        (
            Line {
                number: 10,
                stmt: Stmt::Print(vec![
                    PrintItem::String("X".to_string()),
                    PrintItem::Expr(Expr::Variable('A')),
                ]),
            },
            "10 PRINT \"X\", A",
        ),
        (Line { number: 15, stmt: Stmt::Print(vec![]) }, "15 PRINT \"\""),
        (Line { number: 20, stmt: Stmt::Let('B', Box::new(Expr::Number(7))) }, "20 LET B = 7"),
        (
            Line {
                number: 30,
                stmt: Stmt::LetArray('C', Box::new(Expr::Number(1)), Box::new(Expr::Number(2))),
            },
            "30 LET C(1) = 2",
        ),
        (Line { number: 40, stmt: Stmt::Goto(10) }, "40 GOTO 10"),
        (
            Line {
                number: 50,
                stmt: Stmt::If { condition: Box::new(Expr::Variable('A')), then_line: 10 },
            },
            "50 IF A THEN 10",
        ),
        (Line { number: 60, stmt: Stmt::End }, "60 END"),
        (Line { number: 70, stmt: Stmt::Dim('D', 3) }, "70 DIM D(3)"),
    ];
    for (line, text) in cases {
        assert_eq!(format_line(&line), text);
    }
}

#[test]
fn rendered_program_parses_back_to_the_same_lines() {
    let src = "10 DIM A(3)\n20 LET A(1) = -2 * (3 + B)\n30 IF A(1) >= 0 THEN 50\n40 PRINT \"neg\", A(1)\n50 END";
    let lines = parse(src).expect("parses");
    let again = parse_program(&lines).expect("parses again");
    assert_eq!(again, lines);
}

#[test]
fn runtime_error_messages() {
    assert_eq!(RuntimeError::DivisionByZero.message(), "Division by zero");
    assert_eq!(RuntimeError::UndefinedVariable('Q').message(), "Undefined variable: Q");
    assert_eq!(RuntimeError::UndefinedArray('Q').message(), "Undefined array: Q");
    assert_eq!(RuntimeError::ArrayNotDimensioned('A').message(), "Array A not dimensioned");
    assert_eq!(RuntimeError::InvalidLineNumber(99).message(), "Invalid line number: 99");
    assert_eq!(
        RuntimeError::IndexOutOfBounds { array: 'A', index: -1, size: 5 }.message(),
        "Index -1 out of bounds for array A (size 5)"
    );
}

#[test]
fn parse_error_messages() {
    let e = Lexer::new("#").tokenize().unwrap_err();
    assert_eq!(e.describe(), "Unexpected character: # at position 1");
    assert_eq!(ParseError::Lexer(e).message(), "Unexpected character: # at position 1");
    assert_eq!(ParseError::UnexpectedEnd.message(), "Unexpected end of input");
    assert_eq!(ParseError::InvalidLineNumber.message(), "Invalid line number");
    assert_eq!(ParseError::UnexpectedToken("Expected x".to_string()).message(), "Expected x");
}

#[test]
fn empty_print_round_trips_without_swallowing_the_next_line() {
    let lines = vec![
        Line { number: 10, stmt: Stmt::Print(vec![]) },
        Line { number: 20, stmt: Stmt::End },
    ];
    assert_eq!(format_line(&lines[0]), "10 PRINT \"\"");
    let again = parse_program(&lines).expect("parses again");
    assert_eq!(again.len(), 2);
    assert_eq!(again[0].number, 10);
    assert_eq!(again[0].stmt, Stmt::Print(vec![PrintItem::String(String::new())]));
    assert_eq!(again[1], Line { number: 20, stmt: Stmt::End });
}

#[test]
fn cloned_lines_are_equal() {
    let lines = parse("10 LET A(1) = -(2 + B) * 3\n20 PRINT \"x\", A(1)").expect("parses");
    let copy: Vec<Line> = lines.clone();
    assert_eq!(copy, lines);
}
