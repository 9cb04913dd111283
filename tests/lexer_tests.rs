use tiny_basic::lexer::{Lexer, Token};
use tiny_basic::text::int_to_string;

fn lex(s: &str) -> Vec<Token> {
    Lexer::new(s).tokenize().expect("tokenizes")
}

#[test]
fn decimal_text_reads_back_as_one_number() {
    for n in [0, 7, 10, 42, 1000, 65535, 2147483647] {
        let text = int_to_string(n);
        assert_eq!(lex(&text), vec![Token::Number(n)]);
    }
}

#[test]
fn oversized_literal_saturates() {
    assert_eq!(lex("99999999999"), vec![Token::Number(i32::MAX)]);
    assert_eq!(lex("2147483648"), vec![Token::Number(i32::MAX)]);
}

#[test]
fn keywords_fold_case() {
    assert_eq!(
        lex("print Let goto IF then End dim"),
        vec![Token::Print, Token::Let, Token::Goto, Token::If, Token::Then, Token::End, Token::Dim]
    );
}

#[test]
fn single_letters_are_identifiers() {
    assert_eq!(lex("a Z"), vec![Token::Ident('A'), Token::Ident('Z')]);
}

#[test]
fn two_character_operators() {
    assert_eq!(
        lex("<= <> >= < > = + - * / ( ) ,"),
        vec![
            Token::LessEq,
            Token::NotEquals,
            Token::GreaterEq,
            Token::LessThan,
            Token::GreaterThan,
            Token::Equals,
            Token::Plus,
            Token::Minus,
            Token::Star,
            Token::Slash,
            Token::LeftParen,
            Token::RightParen,
            Token::Comma,
        ]
    );
}

#[test]
fn newlines_only_separate_tokens() {
    assert_eq!(
        lex("10 END\r\n20 END\n"),
        vec![Token::Number(10), Token::End, Token::Number(20), Token::End]
    );
}

#[test]
fn string_literal_keeps_its_text() {
    assert_eq!(lex("\"Hi, there\""), vec![Token::String("Hi, there".to_string())]);
}

#[test]
fn unterminated_string_is_an_error() {
    let e = Lexer::new("PRINT \"abc").tokenize().unwrap_err();
    assert_eq!(e.message, "Unterminated string");
    assert_eq!(e.position, 10);
}

#[test]
fn multi_letter_name_is_an_error() {
    let e = Lexer::new("LET AB = 1").tokenize().unwrap_err();
    assert_eq!(e.message, "Invalid identifier: AB");
    assert_eq!(e.position, 6);
}

#[test]
fn unknown_character_is_an_error() {
    let e = Lexer::new("1 @").tokenize().unwrap_err();
    assert_eq!(e.message, "Unexpected character: @");
    assert_eq!(e.position, 3);
}

#[test]
fn empty_text_has_no_tokens() {
    assert_eq!(lex(""), Vec::<Token>::new());
    assert_eq!(lex("  \t \n"), Vec::<Token>::new());
}

#[test]
fn negative_numbers_render_with_a_sign() {
    assert_eq!(int_to_string(-123), "-123");
    assert_eq!(int_to_string(i32::MIN), "-2147483648");
    assert_eq!(int_to_string(0), "0");
}
