use tiny_basic::ast::{BinaryOp, Expr, Line, PrintItem, Stmt};
use tiny_basic::lexer::Token;
use tiny_basic::parser::{parse, ParseError, Parser};

fn num(n: i32) -> Box<Expr> {
    Box::new(Expr::Number(n))
}

fn bin(l: Box<Expr>, op: BinaryOp, r: Box<Expr>) -> Box<Expr> {
    Box::new(Expr::Binary { left: l, op, right: r })
}

fn only_line(src: &str) -> Line {
    let mut lines = parse(src).expect("parses");
    assert_eq!(lines.len(), 1);
    lines.remove(0)
}

#[test]
fn multiplication_binds_tighter_than_addition() {
    let line = only_line("10 LET A = 1 + 2 * 3");
    assert_eq!(
        line.stmt,
        Stmt::Let('A', bin(num(1), BinaryOp::Add, bin(num(2), BinaryOp::Mul, num(3))))
    );
}

#[test]
fn subtraction_is_left_associative() {
    let line = only_line("10 LET A = 8 - 2 - 1");
    assert_eq!(
        line.stmt,
        Stmt::Let('A', bin(bin(num(8), BinaryOp::Sub, num(2)), BinaryOp::Sub, num(1)))
    );
}

#[test]
fn unary_minus_is_zero_minus_operand() {
    let line = only_line("10 LET A = --5");
    assert_eq!(
        line.stmt,
        Stmt::Let('A', bin(num(0), BinaryOp::Sub, bin(num(0), BinaryOp::Sub, num(5))))
    );
}

#[test]
fn comparison_over_sums_and_array_access() {
    let line = only_line("20 IF B(1) + 1 <= 3 THEN 10");
    let access = Box::new(Expr::ArrayAccess('B', num(1)));
    assert_eq!(line.number, 20);
    assert_eq!(
        line.stmt,
        Stmt::If {
            condition: bin(bin(access, BinaryOp::Add, num(1)), BinaryOp::Le, num(3)),
            then_line: 10,
        }
    );
}

#[test]
fn print_items_keep_order() {
    let line = only_line("10 PRINT \"A\", 1+2, \"B\"");
    assert_eq!(
        line.stmt,
        Stmt::Print(vec![
            PrintItem::String("A".to_string()),
            PrintItem::Expr(*bin(num(1), BinaryOp::Add, num(2))),
            PrintItem::String("B".to_string()),
        ])
    );
}

#[test]
fn dim_and_array_let() {
    let lines = parse("10 DIM A(5)\n20 LET A(4) = 1").expect("parses");
    assert_eq!(lines[0].stmt, Stmt::Dim('A', 5));
    assert_eq!(lines[1].stmt, Stmt::LetArray('A', num(4), num(1)));
}

#[test]
fn lines_are_sorted_by_number() {
    let lines = parse("30 END\n10 GOTO 30\n20 END").expect("parses");
    let numbers: Vec<i32> = lines.iter().map(|l| l.number).collect();
    assert_eq!(numbers, vec![10, 20, 30]);
    assert_eq!(lines[0].stmt, Stmt::Goto(30));
}

#[test]
fn duplicate_line_numbers_keep_their_order() {
    let lines = parse("10 PRINT \"first\"\n5 END\n10 PRINT \"second\"").expect("parses");
    assert_eq!(lines.len(), 3);
    assert_eq!(lines[0].stmt, Stmt::End);
    assert_eq!(lines[1].number, 10);
    assert_eq!(lines[1].stmt, Stmt::Print(vec![PrintItem::String("first".to_string())]));
    assert_eq!(lines[2].number, 10);
    assert_eq!(lines[2].stmt, Stmt::Print(vec![PrintItem::String("second".to_string())]));
}

#[test]
fn text_without_line_number_is_an_empty_program() {
    assert_eq!(parse("PRINT 1").expect("parses").len(), 0);
    assert_eq!(parse("").expect("parses").len(), 0);
}

#[test]
fn missing_variable_names_the_token() {
    match parse("10 LET = 1") {
        Err(ParseError::UnexpectedToken(m)) => assert_eq!(m, "Expected variable, got ="),
        other => panic!("unexpected result: {:?}", other),
    }
}

#[test]
fn unknown_statement_names_the_token() {
    match parse("10 THEN") {
        Err(ParseError::UnexpectedToken(m)) => assert_eq!(m, "Expected statement, got THEN"),
        other => panic!("unexpected result: {:?}", other),
    }
}

#[test]
fn unclosed_parenthesis_is_unexpected_end() {
    assert!(matches!(parse("10 PRINT (1"), Err(ParseError::UnexpectedEnd)));
    assert!(matches!(parse("10 GOTO"), Err(ParseError::UnexpectedEnd)));
}

#[test]
fn missing_then_names_the_token() {
    match parse("10 IF 1 GOTO 20") {
        Err(ParseError::UnexpectedToken(m)) => assert_eq!(m, "Expected THEN, got GOTO"),
        other => panic!("unexpected result: {:?}", other),
    }
}

#[test]
fn lexical_errors_are_wrapped() {
    match parse("10 PRINT \"x") {
        Err(ParseError::Lexer(e)) => {
            assert_eq!(e.message, "Unterminated string");
            assert_eq!(e.position, 11);
        },
        other => panic!("unexpected result: {:?}", other),
    }
}

#[test]
fn parser_over_tokens() {
    let mut parser = Parser::new(vec![Token::Number(10), Token::End]);
    let lines = parser.parse_program().expect("parses");
    assert_eq!(lines, vec![Line { number: 10, stmt: Stmt::End }]);
}
