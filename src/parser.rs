//! Parser: recursive descent from tokens to numbered lines, sorted by number.
use vstd::prelude::*;
use crate::ast::{
    BinaryOp, Expr, ItemView, Line, LineView, PrintItem, Stmt, StmtView, items_view, lines_view,
};
use crate::lexer::{Lexeme, Lexer, LexerError, Token, lex, lexemes};
use crate::text::{int_text, push_int};

verus! {

/// Why parsing failed.
#[derive(Debug)]
pub enum ParseError {
    Lexer(LexerError),
    UnexpectedEnd,
    UnexpectedToken(String),
    InvalidLineNumber,
}

impl ParseError {
    /// The human-readable text of this error.
    pub fn message(&self) -> (r: String)
        ensures
            r@ == match self {
                ParseError::Lexer(e) => e.message@ + " at position "@ + crate::text::decimal(
                    e.position as nat,
                ),
                ParseError::UnexpectedEnd => "Unexpected end of input"@,
                ParseError::UnexpectedToken(m) => m@,
                ParseError::InvalidLineNumber => "Invalid line number"@,
            },
    {
        match self {
            ParseError::Lexer(e) => e.describe(),
            ParseError::UnexpectedEnd => String::from_str("Unexpected end of input"),
            ParseError::UnexpectedToken(m) => m.clone(),
            ParseError::InvalidLineNumber => String::from_str("Invalid line number"),
        }
    }
}

impl From<LexerError> for ParseError {
    fn from(e: LexerError) -> (r: ParseError)
        ensures
            r == ParseError::Lexer(e),
    {
        ParseError::Lexer(e)
    }
}

impl vstd::std_specs::convert::FromSpecImpl<LexerError> for ParseError {
    open spec fn obeys_from_spec() -> bool {
        true
    }

    open spec fn from_spec(e: LexerError) -> ParseError {
        ParseError::Lexer(e)
    }
}

/// Mathematical value of a parse error.
pub enum Fault {
    Lex(Seq<char>, int),
    End,
    Unexpected(Seq<char>),
    InvalidLine,
}

impl View for ParseError {
    type V = Fault;

    open spec fn view(&self) -> Fault {
        match self {
            ParseError::Lexer(e) => Fault::Lex(e.message@, e.position as int),
            ParseError::UnexpectedEnd => Fault::End,
            ParseError::UnexpectedToken(s) => Fault::Unexpected(s@),
            ParseError::InvalidLineNumber => Fault::InvalidLine,
        }
    }
}

/// The source text of a fixed token.
pub open spec fn fixed_text(t: Token) -> Seq<char> {
    match t {
        Token::Number(n) => int_text(n as int),
        Token::Ident(c) => seq![c],
        Token::String(s) => seq!['"'] + s@ + seq!['"'],
        Token::Print => "PRINT"@,
        Token::Let => "LET"@,
        Token::Goto => "GOTO"@,
        Token::If => "IF"@,
        Token::Then => "THEN"@,
        Token::End => "END"@,
        Token::Dim => "DIM"@,
        Token::Plus => "+"@,
        Token::Minus => "-"@,
        Token::Star => "*"@,
        Token::Slash => "/"@,
        Token::Equals => "="@,
        Token::LessThan => "<"@,
        Token::GreaterThan => ">"@,
        Token::LessEq => "<="@,
        Token::GreaterEq => ">="@,
        Token::NotEquals => "<>"@,
        Token::LeftParen => "("@,
        Token::RightParen => ")"@,
        Token::Comma => ","@,
    }
}

/// The source text of a token, as error messages show it.
pub open spec fn token_text(l: Lexeme) -> Seq<char> {
    match l {
        Lexeme::Text(s) => seq!['"'] + s + seq!['"'],
        Lexeme::Fixed(t) => fixed_text(t),
    }
}

/// The error for finding token `t` where `what` was expected.
pub open spec fn unexpected(what: Seq<char>, t: Lexeme) -> Fault {
    Fault::Unexpected("Expected "@ + what + ", got "@ + token_text(t))
}

/// The token at position `p`, if any.
pub open spec fn at(ts: Seq<Lexeme>, p: int) -> Option<Lexeme> {
    if 0 <= p < ts.len() {
        Some(ts[p])
    } else {
        None
    }
}

/// The error for a position where `what` was expected.
pub open spec fn fail_at(ts: Seq<Lexeme>, p: int, what: Seq<char>) -> Fault {
    match at(ts, p) {
        Some(t) => unexpected(what, t),
        None => Fault::End,
    }
}

/// A sub-parse that started at `p` ended at `q`, past `p` and within the tokens.
pub open spec fn advanced(ts: Seq<Lexeme>, p: int, q: int) -> bool {
    p < q <= ts.len()
}

/// Whether the token at `p` is the fixed token `t`.
pub open spec fn is_at(ts: Seq<Lexeme>, p: int, t: Token) -> bool {
    at(ts, p) == Some(Lexeme::Fixed(t))
}

/// Consumes the fixed token `t` at `p`, giving the position after it.
pub open spec fn expect(ts: Seq<Lexeme>, p: int, t: Token) -> Result<int, Fault> {
    if is_at(ts, p, t) {
        Ok(p + 1)
    } else {
        Err(fail_at(ts, p, fixed_text(t)))
    }
}

/// A binary expression.
pub open spec fn binary(l: Expr, op: BinaryOp, r: Expr) -> Expr {
    Expr::Binary { left: Box::new(l), op, right: Box::new(r) }
}

/// The comparison operator at `p`, if any.
pub open spec fn comparison_op(ts: Seq<Lexeme>, p: int) -> Option<BinaryOp> {
    if is_at(ts, p, Token::Equals) {
        Some(BinaryOp::Eq)
    } else if is_at(ts, p, Token::NotEquals) {
        Some(BinaryOp::Ne)
    } else if is_at(ts, p, Token::LessThan) {
        Some(BinaryOp::Lt)
    } else if is_at(ts, p, Token::LessEq) {
        Some(BinaryOp::Le)
    } else if is_at(ts, p, Token::GreaterThan) {
        Some(BinaryOp::Gt)
    } else if is_at(ts, p, Token::GreaterEq) {
        Some(BinaryOp::Ge)
    } else {
        None
    }
}

/// The additive operator at `p`, if any.
pub open spec fn additive_op(ts: Seq<Lexeme>, p: int) -> Option<BinaryOp> {
    if is_at(ts, p, Token::Plus) {
        Some(BinaryOp::Add)
    } else if is_at(ts, p, Token::Minus) {
        Some(BinaryOp::Sub)
    } else {
        None
    }
}

/// The multiplicative operator at `p`, if any.
pub open spec fn multiplicative_op(ts: Seq<Lexeme>, p: int) -> Option<BinaryOp> {
    if is_at(ts, p, Token::Star) {
        Some(BinaryOp::Mul)
    } else if is_at(ts, p, Token::Slash) {
        Some(BinaryOp::Div)
    } else {
        None
    }
}

/// An expression at `p`: the expression and the position after it.
pub open spec fn p_expr(ts: Seq<Lexeme>, p: int) -> Result<(Expr, int), Fault>
    decreases ts.len() - p, 6nat,
{
    p_comparison(ts, p)
}

/// An additive term, then at most one comparison with another.
pub open spec fn p_comparison(ts: Seq<Lexeme>, p: int) -> Result<(Expr, int), Fault>
    decreases ts.len() - p, 5nat,
{
    match p_additive(ts, p) {
        Err(f) => Err(f),
        Ok((left, q)) => if !advanced(ts, p, q) {
            Err(Fault::End)
        } else {
            match comparison_op(ts, q) {
                None => Ok((left, q)),
                Some(op) => match p_additive(ts, q + 1) {
                    Err(f) => Err(f),
                    Ok((right, q2)) => Ok((binary(left, op, right), q2)),
                },
            }
        },
    }
}

/// Multiplicative terms joined by `+` and `-`, left-associative.
pub open spec fn p_additive(ts: Seq<Lexeme>, p: int) -> Result<(Expr, int), Fault>
    decreases ts.len() - p, 4nat,
{
    match p_multiplicative(ts, p) {
        Err(f) => Err(f),
        Ok((left, q)) => if !advanced(ts, p, q) {
            Err(Fault::End)
        } else {
            p_additive_rest(ts, left, q)
        },
    }
}

/// The rest of an additive chain after `left`, from `p`.
pub open spec fn p_additive_rest(ts: Seq<Lexeme>, left: Expr, p: int) -> Result<(Expr, int), Fault>
    decreases ts.len() - p, 3nat,
{
    match additive_op(ts, p) {
        None => Ok((left, p)),
        Some(op) => match p_multiplicative(ts, p + 1) {
            Err(f) => Err(f),
            Ok((right, q)) => if !advanced(ts, p, q) {
                Err(Fault::End)
            } else {
                p_additive_rest(ts, binary(left, op, right), q)
            },
        },
    }
}

/// Unary terms joined by `*` and `/`, left-associative.
pub open spec fn p_multiplicative(ts: Seq<Lexeme>, p: int) -> Result<(Expr, int), Fault>
    decreases ts.len() - p, 3nat,
{
    match p_unary(ts, p) {
        Err(f) => Err(f),
        Ok((left, q)) => if !advanced(ts, p, q) {
            Err(Fault::End)
        } else {
            p_multiplicative_rest(ts, left, q)
        },
    }
}

/// The rest of a multiplicative chain after `left`, from `p`.
pub open spec fn p_multiplicative_rest(ts: Seq<Lexeme>, left: Expr, p: int) -> Result<
    (Expr, int),
    Fault,
>
    decreases ts.len() - p, 2nat,
{
    match multiplicative_op(ts, p) {
        None => Ok((left, p)),
        Some(op) => match p_unary(ts, p + 1) {
            Err(f) => Err(f),
            Ok((right, q)) => if !advanced(ts, p, q) {
                Err(Fault::End)
            } else {
                p_multiplicative_rest(ts, binary(left, op, right), q)
            },
        },
    }
}

/// Leading minus signs, each read as `0 - operand`, before a primary.
pub open spec fn p_unary(ts: Seq<Lexeme>, p: int) -> Result<(Expr, int), Fault>
    decreases ts.len() - p, 1nat,
{
    if is_at(ts, p, Token::Minus) {
        match p_unary(ts, p + 1) {
            Err(f) => Err(f),
            Ok((e, q)) => Ok((binary(Expr::Number(0), BinaryOp::Sub, e), q)),
        }
    } else {
        p_primary(ts, p)
    }
}

/// A number, a variable, an array element or a parenthesised expression.
pub open spec fn p_primary(ts: Seq<Lexeme>, p: int) -> Result<(Expr, int), Fault>
    decreases ts.len() - p, 0nat,
{
    match at(ts, p) {
        Some(Lexeme::Fixed(Token::Number(n))) => Ok((Expr::Number(n), p + 1)),
        Some(Lexeme::Fixed(Token::Ident(c))) => if is_at(ts, p + 1, Token::LeftParen) {
            match p_expr(ts, p + 2) {
                Err(f) => Err(f),
                Ok((index, q)) => match expect(ts, q, Token::RightParen) {
                    Err(f) => Err(f),
                    Ok(q2) => Ok((Expr::ArrayAccess(c, Box::new(index)), q2)),
                },
            }
        } else {
            Ok((Expr::Variable(c), p + 1))
        },
        Some(Lexeme::Fixed(Token::LeftParen)) => match p_expr(ts, p + 1) {
            Err(f) => Err(f),
            Ok((e, q)) => match expect(ts, q, Token::RightParen) {
                Err(f) => Err(f),
                Ok(q2) => Ok((e, q2)),
            },
        },
        Some(t) => Err(unexpected("expression"@, t)),
        None => Err(Fault::End),
    }
}

/// The integer literal at `p`, if any.
pub open spec fn number_at(ts: Seq<Lexeme>, p: int) -> Option<i32> {
    match at(ts, p) {
        Some(Lexeme::Fixed(Token::Number(n))) => Some(n),
        _ => None,
    }
}

/// The identifier at `p`, if any.
pub open spec fn ident_at(ts: Seq<Lexeme>, p: int) -> Option<char> {
    match at(ts, p) {
        Some(Lexeme::Fixed(Token::Ident(c))) => Some(c),
        _ => None,
    }
}

/// GOTO's operand at `p`.
pub open spec fn p_goto(ts: Seq<Lexeme>, p: int) -> Result<(StmtView, int), Fault> {
    match number_at(ts, p) {
        Some(n) => Ok((StmtView::Plain(Stmt::Goto(n)), p + 1)),
        None => Err(fail_at(ts, p, "line number"@)),
    }
}

/// IF's operands at `p`: condition, THEN, line number.
pub open spec fn p_if(ts: Seq<Lexeme>, p: int) -> Result<(StmtView, int), Fault> {
    match p_expr(ts, p) {
        Err(f) => Err(f),
        Ok((c, q)) => match expect(ts, q, Token::Then) {
            Err(f) => Err(f),
            Ok(q2) => match number_at(ts, q2) {
                Some(n) => Ok(
                    (StmtView::Plain(Stmt::If { condition: Box::new(c), then_line: n }), q2 + 1),
                ),
                None => Err(fail_at(ts, q2, "line number"@)),
            },
        },
    }
}

/// DIM's operands at `p`: name, `(`, size, `)`.
pub open spec fn p_dim(ts: Seq<Lexeme>, p: int) -> Result<(StmtView, int), Fault> {
    match ident_at(ts, p) {
        None => Err(fail_at(ts, p, "array name"@)),
        Some(c) => match expect(ts, p + 1, Token::LeftParen) {
            Err(f) => Err(f),
            Ok(q) => match number_at(ts, q) {
                None => Err(fail_at(ts, q, "array size"@)),
                Some(n) => match expect(ts, q + 1, Token::RightParen) {
                    Err(f) => Err(f),
                    Ok(q2) => Ok((StmtView::Plain(Stmt::Dim(c, n)), q2)),
                },
            },
        },
    }
}

/// LET's operands at `p`: a variable or an array element, `=`, a value.
pub open spec fn p_let(ts: Seq<Lexeme>, p: int) -> Result<(StmtView, int), Fault> {
    match ident_at(ts, p) {
        None => Err(fail_at(ts, p, "variable"@)),
        Some(c) => if is_at(ts, p + 1, Token::LeftParen) {
            match p_expr(ts, p + 2) {
                Err(f) => Err(f),
                Ok((index, q)) => match expect(ts, q, Token::RightParen) {
                    Err(f) => Err(f),
                    Ok(q2) => match expect(ts, q2, Token::Equals) {
                        Err(f) => Err(f),
                        Ok(q3) => match p_expr(ts, q3) {
                            Err(f) => Err(f),
                            Ok((v, q4)) => Ok(
                                (
                                    StmtView::Plain(
                                        Stmt::LetArray(c, Box::new(index), Box::new(v)),
                                    ),
                                    q4,
                                ),
                            ),
                        },
                    },
                },
            }
        } else {
            match expect(ts, p + 1, Token::Equals) {
                Err(f) => Err(f),
                Ok(q) => match p_expr(ts, q) {
                    Err(f) => Err(f),
                    Ok((v, q2)) => Ok((StmtView::Plain(Stmt::Let(c, Box::new(v))), q2)),
                },
            }
        },
    }
}

/// Whether a token can start an expression item of PRINT.
pub open spec fn starts_item(l: Lexeme) -> bool {
    l matches Lexeme::Fixed(t) && (t is Ident || t is Number || t == Token::LeftParen)
}

/// PRINT's items from `p`: strings and expressions separated by commas.
pub open spec fn p_items(ts: Seq<Lexeme>, p: int) -> Result<(Seq<ItemView>, int), Fault>
    decreases ts.len() - p,
{
    match at(ts, p) {
        Some(Lexeme::Text(s)) => if is_at(ts, p + 1, Token::Comma) {
            match p_items(ts, p + 2) {
                Err(f) => Err(f),
                Ok((rest, q)) => Ok((seq![ItemView::Text(s)] + rest, q)),
            }
        } else {
            Ok((seq![ItemView::Text(s)], p + 1))
        },
        Some(Lexeme::Fixed(Token::Comma)) => p_items(ts, p + 1),
        Some(l) => if starts_item(l) {
            match p_expr(ts, p) {
                Err(f) => Err(f),
                Ok((e, q)) => if !advanced(ts, p, q) {
                    Err(Fault::End)
                } else if is_at(ts, q, Token::Comma) {
                    match p_items(ts, q + 1) {
                        Err(f) => Err(f),
                        Ok((rest, q2)) => Ok((seq![ItemView::Value(e)] + rest, q2)),
                    }
                } else {
                    Ok((seq![ItemView::Value(e)], q))
                },
            }
        } else {
            Ok((seq![], p))
        },
        None => Ok((seq![], p)),
    }
}

/// A statement at `p`, chosen by its keyword.
pub open spec fn p_statement(ts: Seq<Lexeme>, p: int) -> Result<(StmtView, int), Fault> {
    match at(ts, p) {
        Some(Lexeme::Fixed(Token::Print)) => p_print(ts, p + 1),
        Some(Lexeme::Fixed(Token::Let)) => p_let(ts, p + 1),
        Some(Lexeme::Fixed(Token::Goto)) => p_goto(ts, p + 1),
        Some(Lexeme::Fixed(Token::If)) => p_if(ts, p + 1),
        Some(Lexeme::Fixed(Token::End)) => Ok((StmtView::Plain(Stmt::End), p + 1)),
        Some(Lexeme::Fixed(Token::Dim)) => p_dim(ts, p + 1),
        Some(t) => Err(unexpected("statement"@, t)),
        None => Err(Fault::End),
    }
}

/// A numbered line at `p`, or `None` where no line number stands.
pub open spec fn p_line(ts: Seq<Lexeme>, p: int) -> Result<(Option<LineView>, int), Fault> {
    match number_at(ts, p) {
        Some(n) => match p_statement(ts, p + 1) {
            Err(f) => Err(f),
            Ok((s, q)) => Ok((Some(LineView { number: n, stmt: s }), q)),
        },
        None => Ok((None, p)),
    }
}

/// The lines from `p` on, up to the first place where no line number stands.
pub open spec fn p_lines(ts: Seq<Lexeme>, p: int) -> Result<Seq<LineView>, Fault>
    decreases ts.len() - p,
{
    match p_line(ts, p) {
        Err(f) => Err(f),
        Ok((None, _)) => Ok(seq![]),
        Ok((Some(l), q)) => if !advanced(ts, p, q) {
            Err(Fault::End)
        } else {
            match p_lines(ts, q) {
                Err(f) => Err(f),
                Ok(rest) => Ok(seq![l] + rest),
            }
        },
    }
}

/// The first index at or after `k` of a line numbered above `n`, or the length.
pub open spec fn first_above(s: Seq<LineView>, n: i32, k: int) -> int
    decreases s.len() - k,
{
    if k < 0 || k >= s.len() {
        s.len() as int
    } else if s[k].number > n {
        k
    } else {
        first_above(s, n, k + 1)
    }
}

/// `x` placed after every line numbered at most its own number.
pub open spec fn insert_line(s: Seq<LineView>, x: LineView) -> Seq<LineView> {
    s.insert(first_above(s, x.number, 0), x)
}

/// Lines sorted by number; lines of equal number keep their order.
pub open spec fn sort_lines(s: Seq<LineView>) -> Seq<LineView>
    decreases s.len(),
{
    if s.len() == 0 {
        s
    } else {
        insert_line(sort_lines(s.drop_last()), s.last())
    }
}

/// The program that tokens spell, sorted by line number.
pub open spec fn parse_tokens(ts: Seq<Lexeme>) -> Result<Seq<LineView>, Fault> {
    match p_lines(ts, 0) {
        Err(f) => Err(f),
        Ok(ls) => Ok(sort_lines(ls)),
    }
}

/// The program that a text spells, sorted by line number.
pub open spec fn parse_text(cs: Seq<char>) -> Result<Seq<LineView>, Fault> {
    match lex(cs) {
        Err((m, p)) => Err(Fault::Lex(m, p)),
        Ok(ts) => parse_tokens(ts),
    }
}

/// PRINT's operands at `p`.
pub open spec fn p_print(ts: Seq<Lexeme>, p: int) -> Result<(StmtView, int), Fault> {
    match p_items(ts, p) {
        Err(f) => Err(f),
        Ok((items, q)) => Ok((StmtView::Print(items), q)),
    }
}

/// `acc` placed before the items of an outcome.
pub open spec fn prefix_items(acc: Seq<ItemView>, r: Result<(Seq<ItemView>, int), Fault>) -> Result<
    (Seq<ItemView>, int),
    Fault,
> {
    match r {
        Ok((rest, q)) => Ok((acc + rest, q)),
        Err(f) => Err(f),
    }
}

proof fn lemma_prefix_items(acc: Seq<ItemView>, x: ItemView, r: Result<(Seq<ItemView>, int), Fault>)
    ensures
        prefix_items(acc, prefix_items(seq![x], r)) == prefix_items(acc.push(x), r),
{
    if let Ok((rest, q)) = r {
        assert(acc + (seq![x] + rest) =~= acc.push(x) + rest);
    }
}

/// Whether an exec statement result agrees with a spec outcome.
pub open spec fn agrees_stmt(
    r: Result<Stmt, ParseError>,
    expected: Result<(StmtView, int), Fault>,
    ts: Seq<Lexeme>,
    p: int,
    q: int,
) -> bool {
    match r {
        Ok(v) => expected == Ok::<(StmtView, int), Fault>((v@, q)) && p <= q <= ts.len(),
        Err(e) => expected == Err::<(StmtView, int), Fault>(e@),
    }
}

/// A parsed program as a spec outcome.
pub open spec fn program_outcome(r: Result<Vec<Line>, ParseError>) -> Result<Seq<LineView>, Fault> {
    match r {
        Ok(v) => Ok(lines_view(v@)),
        Err(e) => Err(e@),
    }
}

/// Whether an exec result agrees with a spec outcome: the same value with the
/// parser moved from `p` to `q`, or the same error.
pub open spec fn agrees<T>(
    r: Result<T, ParseError>,
    expected: Result<(T, int), Fault>,
    ts: Seq<Lexeme>,
    p: int,
    q: int,
) -> bool {
    match r {
        Ok(v) => expected == Ok::<(T, int), Fault>((v, q)) && advanced(ts, p, q),
        Err(e) => expected == Err::<(T, int), Fault>(e@),
    }
}

/// Whether two tokens are the same, where `b` carries no value.
fn same_token(a: &Token, b: &Token) -> (r: bool)
    ensures
        !(b is Number || b is Ident || b is String) ==> r == (a@ == Lexeme::Fixed(*b)),
{
    match (a, b) {
        (Token::Print, Token::Print) => true,
        (Token::Let, Token::Let) => true,
        (Token::Goto, Token::Goto) => true,
        (Token::If, Token::If) => true,
        (Token::Then, Token::Then) => true,
        (Token::End, Token::End) => true,
        (Token::Dim, Token::Dim) => true,
        (Token::Plus, Token::Plus) => true,
        (Token::Minus, Token::Minus) => true,
        (Token::Star, Token::Star) => true,
        (Token::Slash, Token::Slash) => true,
        (Token::Equals, Token::Equals) => true,
        (Token::LessThan, Token::LessThan) => true,
        (Token::GreaterThan, Token::GreaterThan) => true,
        (Token::LessEq, Token::LessEq) => true,
        (Token::GreaterEq, Token::GreaterEq) => true,
        (Token::NotEquals, Token::NotEquals) => true,
        (Token::LeftParen, Token::LeftParen) => true,
        (Token::RightParen, Token::RightParen) => true,
        (Token::Comma, Token::Comma) => true,
        _ => false,
    }
}

/// The source text of a token.
fn describe(t: &Token) -> (r: String)
    ensures
        r@ == token_text(t@),
{
    match t {
        Token::Number(n) => crate::text::int_to_string(*n),
        Token::Ident(c) => {
            let mut s = String::new();
            crate::text::push_char(&mut s, *c);
            assert(s@ =~= seq![*c]);
            s
        },
        Token::String(text) => {
            let mut s = String::new();
            crate::text::push_char(&mut s, '"');
            s.append(text.as_str());
            crate::text::push_char(&mut s, '"');
            assert(s@ =~= seq!['"'] + text@ + seq!['"']);
            s
        },
        Token::Print => String::from_str("PRINT"),
        Token::Let => String::from_str("LET"),
        Token::Goto => String::from_str("GOTO"),
        Token::If => String::from_str("IF"),
        Token::Then => String::from_str("THEN"),
        Token::End => String::from_str("END"),
        Token::Dim => String::from_str("DIM"),
        Token::Plus => String::from_str("+"),
        Token::Minus => String::from_str("-"),
        Token::Star => String::from_str("*"),
        Token::Slash => String::from_str("/"),
        Token::Equals => String::from_str("="),
        Token::LessThan => String::from_str("<"),
        Token::GreaterThan => String::from_str(">"),
        Token::LessEq => String::from_str("<="),
        Token::GreaterEq => String::from_str(">="),
        Token::NotEquals => String::from_str("<>"),
        Token::LeftParen => String::from_str("("),
        Token::RightParen => String::from_str(")"),
        Token::Comma => String::from_str(","),
    }
}

/// A parser over a sequence of tokens.
pub struct Parser {
    tokens: Vec<Token>,
    pos: usize,
}

impl Parser {
    /// The tokens being parsed.
    pub closed spec fn toks(&self) -> Seq<Lexeme> {
        lexemes(self.tokens@)
    }

    /// How many tokens have been consumed.
    pub closed spec fn position(&self) -> int {
        self.pos as int
    }

    pub closed spec fn wf(&self) -> bool {
        self.pos <= self.tokens.len()
    }

    pub fn new(tokens: Vec<Token>) -> (r: Parser)
        ensures
            r.wf(),
            r.toks() == lexemes(tokens@),
            r.position() == 0,
    {
        Parser { tokens, pos: 0 }
    }

    fn advance(&mut self)
        requires
            old(self).pos < old(self).tokens.len(),
        ensures
            final(self).tokens == old(self).tokens,
            final(self).pos == old(self).pos + 1,
    {
        self.pos += 1;
    }

    fn peek(&self) -> (r: Option<&Token>)
        requires
            self.wf(),
        ensures
            self.toks().len() == self.tokens@.len(),
            match r {
                Some(t) => self.pos < self.tokens.len() && *t == self.tokens@[self.pos as int]
                    && at(self.toks(), self.pos as int) == Some(t@),
                None => self.pos >= self.tokens.len() && at(self.toks(), self.pos as int) is None,
            },
    {
        if self.pos < self.tokens.len() {
            Some(&self.tokens[self.pos])
        } else {
            None
        }
    }

    /// The error for the current position, where `what` was expected.
    fn fail(&self, what: &str) -> (r: ParseError)
        requires
            self.wf(),
        ensures
            r@ == fail_at(self.toks(), self.pos as int, what@),
    {
        match self.peek() {
            Some(t) => {
                let mut m = String::from_str("Expected ");
                m.append(what);
                m.append(", got ");
                let d = describe(t);
                m.append(d.as_str());
                ParseError::UnexpectedToken(m)
            },
            None => ParseError::UnexpectedEnd,
        }
    }

    fn expect_token(&mut self, expected: Token) -> (r: Result<(), ParseError>)
        requires
            old(self).wf(),
            !(expected is Number || expected is Ident || expected is String),
        ensures
            final(self).wf(),
            final(self).tokens == old(self).tokens,
            match r {
                Ok(_) => expect(old(self).toks(), old(self).pos as int, expected) == Ok::<
                    int,
                    Fault,
                >(final(self).pos as int),
                Err(e) => expect(old(self).toks(), old(self).pos as int, expected) == Err::<
                    int,
                    Fault,
                >(e@),
            },
    {
        match self.peek() {
            Some(t) => {
                if same_token(t, &expected) {
                    self.advance();
                    return Ok(());
                }
            },
            None => {},
        }
        let d = describe(&expected);
        Err(self.fail(d.as_str()))
    }

    fn parse_expr(&mut self) -> (r: Result<Expr, ParseError>)
        requires
            old(self).wf(),
        ensures
            final(self).wf(),
            final(self).tokens == old(self).tokens,
            agrees(r, p_expr(old(self).toks(), old(self).pos as int), old(self).toks(), old(self).pos as int, final(self).pos as int),
        decreases old(self).tokens.len() - old(self).pos, 6nat,
    {
        self.parse_comparison()
    }

    fn parse_comparison(&mut self) -> (r: Result<Expr, ParseError>)
        requires
            old(self).wf(),
        ensures
            final(self).wf(),
            final(self).tokens == old(self).tokens,
            agrees(r, p_comparison(old(self).toks(), old(self).pos as int), old(self).toks(), old(self).pos as int, final(self).pos as int),
        decreases old(self).tokens.len() - old(self).pos, 5nat,
    {
        let left = self.parse_additive()?;
        let op = match self.peek() {
            Some(Token::Equals) => BinaryOp::Eq,
            Some(Token::NotEquals) => BinaryOp::Ne,
            Some(Token::LessThan) => BinaryOp::Lt,
            Some(Token::LessEq) => BinaryOp::Le,
            Some(Token::GreaterThan) => BinaryOp::Gt,
            Some(Token::GreaterEq) => BinaryOp::Ge,
            _ => return Ok(left),
        };
        self.advance();
        let right = self.parse_additive()?;
        Ok(Expr::Binary { left: Box::new(left), op, right: Box::new(right) })
    }

    fn parse_additive(&mut self) -> (r: Result<Expr, ParseError>)
        requires
            old(self).wf(),
        ensures
            final(self).wf(),
            final(self).tokens == old(self).tokens,
            agrees(r, p_additive(old(self).toks(), old(self).pos as int), old(self).toks(), old(self).pos as int, final(self).pos as int),
        decreases old(self).tokens.len() - old(self).pos, 4nat,
    {
        let ghost ts = self.toks();
        let ghost p0 = self.pos as int;
        let mut left = self.parse_multiplicative()?;
        loop
            invariant
                self.wf(),
                self.tokens == old(self).tokens,
                ts == old(self).toks(),
                p0 == old(self).pos,
                advanced(ts, p0, self.pos as int),
                p_additive(ts, p0) == p_additive_rest(ts, left, self.pos as int),
            ensures
                self.wf(),
                self.tokens == old(self).tokens,
                advanced(ts, p0, self.pos as int),
                p_additive(ts, p0) == Ok::<(Expr, int), Fault>((left, self.pos as int)),
            decreases self.tokens.len() - self.pos,
        {
            let op = match self.peek() {
                Some(Token::Plus) => BinaryOp::Add,
                Some(Token::Minus) => BinaryOp::Sub,
                _ => break,
            };
            self.advance();
            let right = self.parse_multiplicative()?;
            left = Expr::Binary { left: Box::new(left), op, right: Box::new(right) };
        }
        Ok(left)
    }

    fn parse_multiplicative(&mut self) -> (r: Result<Expr, ParseError>)
        requires
            old(self).wf(),
        ensures
            final(self).wf(),
            final(self).tokens == old(self).tokens,
            agrees(r, p_multiplicative(old(self).toks(), old(self).pos as int), old(self).toks(), old(self).pos as int, final(self).pos as int),
        decreases old(self).tokens.len() - old(self).pos, 3nat,
    {
        let ghost ts = self.toks();
        let ghost p0 = self.pos as int;
        let mut left = self.parse_unary()?;
        loop
            invariant
                self.wf(),
                self.tokens == old(self).tokens,
                ts == old(self).toks(),
                p0 == old(self).pos,
                advanced(ts, p0, self.pos as int),
                p_multiplicative(ts, p0) == p_multiplicative_rest(ts, left, self.pos as int),
            ensures
                self.wf(),
                self.tokens == old(self).tokens,
                advanced(ts, p0, self.pos as int),
                p_multiplicative(ts, p0) == Ok::<(Expr, int), Fault>((left, self.pos as int)),
            decreases self.tokens.len() - self.pos,
        {
            let op = match self.peek() {
                Some(Token::Star) => BinaryOp::Mul,
                Some(Token::Slash) => BinaryOp::Div,
                _ => break,
            };
            self.advance();
            let right = self.parse_unary()?;
            left = Expr::Binary { left: Box::new(left), op, right: Box::new(right) };
        }
        Ok(left)
    }

    fn parse_unary(&mut self) -> (r: Result<Expr, ParseError>)
        requires
            old(self).wf(),
        ensures
            final(self).wf(),
            final(self).tokens == old(self).tokens,
            agrees(r, p_unary(old(self).toks(), old(self).pos as int), old(self).toks(), old(self).pos as int, final(self).pos as int),
        decreases old(self).tokens.len() - old(self).pos, 1nat,
    {
        if let Some(Token::Minus) = self.peek() {
            self.advance();
            let expr = self.parse_unary()?;
            return Ok(Expr::Binary {
                left: Box::new(Expr::Number(0)),
                op: BinaryOp::Sub,
                right: Box::new(expr),
            });
        }
        self.parse_primary()
    }

    fn parse_primary(&mut self) -> (r: Result<Expr, ParseError>)
        requires
            old(self).wf(),
        ensures
            final(self).wf(),
            final(self).tokens == old(self).tokens,
            agrees(r, p_primary(old(self).toks(), old(self).pos as int), old(self).toks(), old(self).pos as int, final(self).pos as int),
        decreases old(self).tokens.len() - old(self).pos, 0nat,
    {
        match self.peek() {
            Some(Token::Number(n)) => {
                let n = *n;
                self.advance();
                Ok(Expr::Number(n))
            },
            Some(Token::Ident(c)) => {
                let c = *c;
                self.advance();
                if let Some(Token::LeftParen) = self.peek() {
                    self.advance();
                    let index = self.parse_expr()?;
                    self.expect_token(Token::RightParen)?;
                    Ok(Expr::ArrayAccess(c, Box::new(index)))
                } else {
                    Ok(Expr::Variable(c))
                }
            },
            Some(Token::LeftParen) => {
                self.advance();
                let expr = self.parse_expr()?;
                self.expect_token(Token::RightParen)?;
                Ok(expr)
            },
            Some(_) => Err(self.fail("expression")),
            None => Err(ParseError::UnexpectedEnd),
        }
    }

    fn parse_goto(&mut self) -> (r: Result<Stmt, ParseError>)
        requires
            old(self).wf(),
        ensures
            final(self).wf(),
            final(self).tokens == old(self).tokens,
            agrees_stmt(
                r,
                p_goto(old(self).toks(), old(self).pos as int),
                old(self).toks(),
                old(self).pos as int,
                final(self).pos as int,
            ),
    {
        match self.peek() {
            Some(Token::Number(n)) => {
                let n = *n;
                self.advance();
                Ok(Stmt::Goto(n))
            },
            _ => Err(self.fail("line number")),
        }
    }

    fn parse_if(&mut self) -> (r: Result<Stmt, ParseError>)
        requires
            old(self).wf(),
        ensures
            final(self).wf(),
            final(self).tokens == old(self).tokens,
            agrees_stmt(
                r,
                p_if(old(self).toks(), old(self).pos as int),
                old(self).toks(),
                old(self).pos as int,
                final(self).pos as int,
            ),
    {
        let condition = self.parse_expr()?;
        self.expect_token(Token::Then)?;
        match self.peek() {
            Some(Token::Number(n)) => {
                let then_line = *n;
                self.advance();
                Ok(Stmt::If { condition: Box::new(condition), then_line })
            },
            _ => Err(self.fail("line number")),
        }
    }

    fn parse_dim(&mut self) -> (r: Result<Stmt, ParseError>)
        requires
            old(self).wf(),
        ensures
            final(self).wf(),
            final(self).tokens == old(self).tokens,
            agrees_stmt(
                r,
                p_dim(old(self).toks(), old(self).pos as int),
                old(self).toks(),
                old(self).pos as int,
                final(self).pos as int,
            ),
    {
        let var = match self.peek() {
            Some(Token::Ident(c)) => *c,
            _ => return Err(self.fail("array name")),
        };
        self.advance();
        self.expect_token(Token::LeftParen)?;
        let size = match self.peek() {
            Some(Token::Number(n)) => *n,
            _ => return Err(self.fail("array size")),
        };
        self.advance();
        self.expect_token(Token::RightParen)?;
        Ok(Stmt::Dim(var, size))
    }

    fn parse_let(&mut self) -> (r: Result<Stmt, ParseError>)
        requires
            old(self).wf(),
        ensures
            final(self).wf(),
            final(self).tokens == old(self).tokens,
            agrees_stmt(
                r,
                p_let(old(self).toks(), old(self).pos as int),
                old(self).toks(),
                old(self).pos as int,
                final(self).pos as int,
            ),
    {
        let var = match self.peek() {
            Some(Token::Ident(c)) => *c,
            _ => return Err(self.fail("variable")),
        };
        self.advance();
        if let Some(Token::LeftParen) = self.peek() {
            self.advance();
            let index = self.parse_expr()?;
            self.expect_token(Token::RightParen)?;
            self.expect_token(Token::Equals)?;
            let value = self.parse_expr()?;
            Ok(Stmt::LetArray(var, Box::new(index), Box::new(value)))
        } else {
            self.expect_token(Token::Equals)?;
            let value = self.parse_expr()?;
            Ok(Stmt::Let(var, Box::new(value)))
        }
    }

    fn parse_print(&mut self) -> (r: Result<Stmt, ParseError>)
        requires
            old(self).wf(),
        ensures
            final(self).wf(),
            final(self).tokens == old(self).tokens,
            agrees_stmt(
                r,
                p_print(old(self).toks(), old(self).pos as int),
                old(self).toks(),
                old(self).pos as int,
                final(self).pos as int,
            ),
    {
        let ghost ts = self.toks();
        let ghost p0 = self.pos as int;
        let mut items: Vec<PrintItem> = Vec::new();
        loop
            invariant_except_break
                p_items(ts, p0) == prefix_items(items_view(items@), p_items(ts, self.pos as int)),
            invariant
                self.wf(),
                self.tokens == old(self).tokens,
                ts == old(self).toks(),
                p0 == old(self).pos,
                p0 <= self.pos,
            ensures
                self.wf(),
                self.tokens == old(self).tokens,
                p0 <= self.pos,
                p_items(ts, p0) == Ok::<(Seq<ItemView>, int), Fault>(
                    (items_view(items@), self.pos as int),
                ),
            decreases self.tokens.len() - self.pos,
        {
            let ghost before = items@;
            let ghost k = self.pos as int;
            match self.peek() {
                Some(Token::String(text)) => {
                    let item = PrintItem::String(text.clone());
                    self.advance();
                    items.push(item);
                },
                Some(Token::Ident(_)) | Some(Token::Number(_)) | Some(Token::LeftParen) => {
                    let e = self.parse_expr()?;
                    items.push(PrintItem::Expr(e));
                },
                Some(Token::Comma) => {
                    self.advance();
                    continue;
                },
                _ => {
                    assert(items_view(items@) + seq![] =~= items_view(items@));
                    break;
                },
            }
            assert(items_view(items@) =~= items_view(before).push(items@.last()@));
            proof {
                lemma_prefix_items(items_view(before), items@.last()@, p_items(ts, self.pos as int + 1));
            }
            if let Some(Token::Comma) = self.peek() {
                self.advance();
            } else {
                assert(p_items(ts, k) == Ok::<(Seq<ItemView>, int), Fault>(
                    (seq![items@.last()@], self.pos as int),
                ));
                assert(items_view(items@) =~= items_view(before) + seq![items@.last()@]);
                break;
            }
        }
        Ok(Stmt::Print(items))
    }

    fn parse_statement(&mut self) -> (r: Result<Stmt, ParseError>)
        requires
            old(self).wf(),
        ensures
            final(self).wf(),
            final(self).tokens == old(self).tokens,
            agrees_stmt(
                r,
                p_statement(old(self).toks(), old(self).pos as int),
                old(self).toks(),
                old(self).pos as int,
                final(self).pos as int,
            ),
            r is Ok ==> old(self).pos < final(self).pos,
    {
        let keyword = match self.peek() {
            Some(Token::Print) => Token::Print,
            Some(Token::Let) => Token::Let,
            Some(Token::Goto) => Token::Goto,
            Some(Token::If) => Token::If,
            Some(Token::End) => Token::End,
            Some(Token::Dim) => Token::Dim,
            Some(_) => return Err(self.fail("statement")),
            None => return Err(ParseError::UnexpectedEnd),
        };
        self.advance();
        match keyword {
            Token::Print => self.parse_print(),
            Token::Let => self.parse_let(),
            Token::Goto => self.parse_goto(),
            Token::If => self.parse_if(),
            Token::Dim => self.parse_dim(),
            _ => Ok(Stmt::End),
        }
    }

    fn parse_line(&mut self) -> (r: Result<Option<Line>, ParseError>)
        requires
            old(self).wf(),
        ensures
            final(self).wf(),
            final(self).tokens == old(self).tokens,
            match r {
                Ok(None) => p_line(old(self).toks(), old(self).pos as int) matches Ok((None, _))
                    && final(self).pos == old(self).pos,
                Ok(Some(l)) => p_line(old(self).toks(), old(self).pos as int) == Ok::<
                    (Option<LineView>, int),
                    Fault,
                >((Some(l@), final(self).pos as int)) && advanced(
                    old(self).toks(),
                    old(self).pos as int,
                    final(self).pos as int,
                ),
                Err(e) => p_line(old(self).toks(), old(self).pos as int) == Err::<
                    (Option<LineView>, int),
                    Fault,
                >(e@),
            },
    {
        let number = match self.peek() {
            Some(Token::Number(n)) => *n,
            _ => return Ok(None),
        };
        self.advance();
        let stmt = self.parse_statement()?;
        Ok(Some(Line { number, stmt }))
    }

    /// Parses numbered lines up to the first place where no line number
    /// stands, and sorts them by number; lines of equal number keep their order.
    pub fn parse_program(&mut self) -> (r: Result<Vec<Line>, ParseError>)
        requires
            old(self).wf(),
        ensures
            final(self).wf(),
            final(self).toks() == old(self).toks(),
            program_outcome(r) == match p_lines(old(self).toks(), old(self).position()) {
                Ok(ls) => Ok(sort_lines(ls)),
                Err(f) => Err(f),
            },
    {
        let ghost ts = self.toks();
        let ghost p0 = self.pos as int;
        let mut lines: Vec<Line> = Vec::new();
        loop
            invariant
                self.wf(),
                self.tokens == old(self).tokens,
                ts == old(self).toks(),
                p0 == old(self).pos,
                p_lines(ts, p0) == prefix_lines(lines_view(lines@), p_lines(ts, self.pos as int)),
            ensures
                self.wf(),
                self.tokens == old(self).tokens,
                p_lines(ts, p0) == Ok::<Seq<LineView>, Fault>(lines_view(lines@)),
            decreases self.tokens.len() - self.pos,
        {
            let ghost before = lines@;
            match self.parse_line()? {
                Some(line) => {
                    proof {
                        lemma_prefix_lines(lines_view(before), line@, p_lines(ts, self.pos as int));
                    }
                    lines.push(line);
                    assert(lines_view(lines@) =~= lines_view(before).push(line@));
                },
                None => {
                    assert(lines_view(lines@) + seq![] =~= lines_view(lines@));
                    break;
                },
            }
        }
        Ok(sort_by_number(lines))
    }
}

/// `acc` placed before the lines of an outcome.
pub open spec fn prefix_lines(acc: Seq<LineView>, r: Result<Seq<LineView>, Fault>) -> Result<
    Seq<LineView>,
    Fault,
> {
    match r {
        Ok(rest) => Ok(acc + rest),
        Err(f) => Err(f),
    }
}

proof fn lemma_prefix_lines(acc: Seq<LineView>, x: LineView, r: Result<Seq<LineView>, Fault>)
    ensures
        prefix_lines(acc, prefix_lines(seq![x], r)) == prefix_lines(acc.push(x), r),
{
    if let Ok(rest) = r {
        assert(acc + (seq![x] + rest) =~= acc.push(x) + rest);
    }
}

proof fn lemma_first_above_range(s: Seq<LineView>, n: i32, k: int)
    requires
        0 <= k <= s.len(),
    ensures
        k <= first_above(s, n, k) <= s.len(),
    decreases s.len() - k,
{
    if k < s.len() {
        lemma_first_above_range(s, n, k + 1);
    }
}

/// Whether lines are in ascending order of number.
pub open spec fn ascending(s: Seq<LineView>) -> bool {
    forall|i: int, j: int| 0 <= i < j < s.len() ==> s[i].number <= s[j].number
}

/// The lines numbered `n`, in their order.
pub open spec fn numbered(s: Seq<LineView>, n: i32) -> Seq<LineView>
    decreases s.len(),
{
    if s.len() == 0 {
        seq![]
    } else if s.last().number == n {
        numbered(s.drop_last(), n).push(s.last())
    } else {
        numbered(s.drop_last(), n)
    }
}

proof fn lemma_numbered_add(a: Seq<LineView>, b: Seq<LineView>, n: i32)
    ensures
        numbered(a + b, n) == numbered(a, n) + numbered(b, n),
    decreases b.len(),
{
    if b.len() == 0 {
        assert(a + b =~= a);
        assert(numbered(a, n) + numbered(b, n) =~= numbered(a, n));
    } else {
        lemma_numbered_add(a, b.drop_last(), n);
        assert((a + b).drop_last() =~= a + b.drop_last());
        assert((a + b).last() == b.last());
        if b.last().number == n {
            assert(numbered(a, n) + numbered(b.drop_last(), n).push(b.last()) =~= (numbered(a, n)
                + numbered(b.drop_last(), n)).push(b.last()));
        }
    }
}

proof fn lemma_numbered_none(s: Seq<LineView>, n: i32)
    requires
        forall|i: int| 0 <= i < s.len() ==> s[i].number != n,
    ensures
        numbered(s, n) == Seq::<LineView>::empty(),
    decreases s.len(),
{
    if s.len() > 0 {
        lemma_numbered_none(s.drop_last(), n);
    }
}

proof fn lemma_first_above_split(s: Seq<LineView>, n: i32, j: int)
    requires
        0 <= j <= s.len(),
    ensures
        j <= first_above(s, n, j) <= s.len(),
        forall|i: int| j <= i < first_above(s, n, j) ==> s[i].number <= n,
        first_above(s, n, j) < s.len() ==> s[first_above(s, n, j)].number > n,
    decreases s.len() - j,
{
    if j < s.len() {
        lemma_first_above_split(s, n, j + 1);
    }
}

proof fn lemma_insert_line(t: Seq<LineView>, x: LineView, n: i32)
    requires
        ascending(t),
    ensures
        ascending(insert_line(t, x)),
        numbered(insert_line(t, x), n) == if x.number == n {
            numbered(t, n).push(x)
        } else {
            numbered(t, n)
        },
{
    let k = first_above(t, x.number, 0);
    lemma_first_above_split(t, x.number, 0);
    let u = insert_line(t, x);
    assert forall|i: int, j: int| 0 <= i < j < u.len() implies u[i].number <= u[j].number by {
        if j < k {
        } else if j == k {
        } else if i < k {
            assert(t[k].number > x.number);
        } else if i == k {
            assert(t[k].number > x.number);
        } else {
        }
    }
    assert(u =~= t.take(k) + seq![x] + t.skip(k));
    assert(t =~= t.take(k) + t.skip(k));
    lemma_numbered_add(t.take(k) + seq![x], t.skip(k), n);
    lemma_numbered_add(t.take(k), seq![x], n);
    lemma_numbered_add(t.take(k), t.skip(k), n);
    assert(seq![x].drop_last() =~= Seq::<LineView>::empty());
    assert(numbered(Seq::<LineView>::empty(), n) == Seq::<LineView>::empty());
    if x.number == n {
        assert(numbered(seq![x], n) =~= seq![x]);
    } else {
        assert(numbered(seq![x], n) =~= Seq::<LineView>::empty());
    }
    if x.number == n {
        assert forall|i: int| 0 <= i < t.skip(k).len() implies t.skip(k)[i].number != n by {
            assert(t[k].number > x.number);
        }
        lemma_numbered_none(t.skip(k), n);
        assert(numbered(t.take(k), n) + seq![x] =~= numbered(t.take(k), n).push(x));
        assert(numbered(t.take(k), n) + numbered(t.skip(k), n) =~= numbered(t.take(k), n));
        assert(numbered(t.take(k), n).push(x) + numbered(t.skip(k), n) =~= numbered(t.take(k), n).push(x));
    } else {
        assert(numbered(t.take(k), n) + Seq::<LineView>::empty() =~= numbered(t.take(k), n));
        assert(numbered(u, n) =~= numbered(t, n));
    }
}

/// Sorting puts lines in ascending order of number, and keeps the lines of
/// each number in the order they had: lines of equal number are all kept.
pub proof fn lemma_sort_stable(s: Seq<LineView>, n: i32)
    ensures
        ascending(sort_lines(s)),
        numbered(sort_lines(s), n) == numbered(s, n),
    decreases s.len(),
{
    if s.len() > 0 {
        lemma_sort_stable(s.drop_last(), n);
        lemma_insert_line(sort_lines(s.drop_last()), s.last(), n);
    }
}

/// A parsed program is in ascending order of line number, and holds, for each
/// number, every line of that number in the order the text gave them.
pub proof fn lemma_parse_keeps_duplicates(cs: Seq<char>, n: i32)
    requires
        parse_text(cs) is Ok,
    ensures
        lex(cs) is Ok,
        p_lines(lex(cs)->Ok_0, 0) is Ok,
        ascending(parse_text(cs)->Ok_0),
        numbered(parse_text(cs)->Ok_0, n) == numbered(p_lines(lex(cs)->Ok_0, 0)->Ok_0, n),
{
    lemma_sort_stable(p_lines(lex(cs)->Ok_0, 0)->Ok_0, n);
}

/// Sorts lines by number with a stable insertion sort.
fn sort_by_number(lines: Vec<Line>) -> (r: Vec<Line>)
    ensures
        lines_view(r@) == sort_lines(lines_view(lines@)),
{
    let ghost all = lines_view(lines@);
    let mut rest = lines;
    let mut sorted: Vec<Line> = Vec::new();
    let ghost mut done: int = 0;
    while rest.len() > 0
        invariant
            0 <= done <= all.len(),
            lines_view(rest@) == all.skip(done),
            lines_view(sorted@) == sort_lines(all.take(done)),
        decreases rest.len(),
    {
        assert(lines_view(rest@).len() == rest@.len());
        assert(lines_view(rest@)[0] == rest@[0]@);
        let ghost r0 = rest@;
        let line = rest.remove(0);
        assert(line@ == all[done]);
        assert(rest@ =~= r0.subrange(1, r0.len() as int));
        let ghost s0 = lines_view(sorted@);
        let mut k: usize = 0;
        while k < sorted.len() && sorted[k].number <= line.number
            invariant
                k <= sorted.len(),
                lines_view(sorted@) == s0,
                first_above(s0, line.number, 0) == first_above(s0, line.number, k as int),
            decreases sorted.len() - k,
        {
            k += 1;
        }
        proof {
            lemma_first_above_range(s0, line.number, k as int);
        }
        sorted.insert(k, line);
        proof {
            assert(all.take(done + 1).drop_last() =~= all.take(done));
            assert(all.take(done + 1).last() == all[done]);
            assert(lines_view(sorted@) =~= s0.insert(k as int, all[done]));
            assert(lines_view(rest@) =~= lines_view(r0).subrange(1, r0.len() as int));
            assert(lines_view(rest@) =~= all.skip(done + 1));
            done = done + 1;
        }
    }
    assert(all.take(done) =~= all);
    sorted
}

/// Tokenizes and parses a whole text into a program sorted by line number.
pub fn parse(source: &str) -> (r: Result<Vec<Line>, ParseError>)
    ensures
        program_outcome(r) == parse_text(source@),
{
    let mut lexer = Lexer::new(source);
    let tokens = match lexer.tokenize() {
        Ok(ts) => ts,
        Err(e) => return Err(ParseError::from(e)),
    };
    let mut parser = Parser::new(tokens);
    parser.parse_program()
}

} // verus!
