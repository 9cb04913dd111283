//! Tokenizer: turns source text into a flat sequence of tokens.
use vstd::prelude::*;
use crate::text::{
    decimal, digit_value, is_alnum, is_alnum_char, is_blank, is_blank_char, is_digit, is_digit_char,
    is_letter, push_char, push_chars, push_decimal, to_upper, upper,
};

verus! {

/// A lexical token.
#[derive(Debug, Clone, PartialEq)]
pub enum Token {
    Number(i32),
    Ident(char),
    String(String),
    Print,
    Let,
    Goto,
    If,
    Then,
    End,
    Dim,
    Plus,
    Minus,
    Star,
    Slash,
    Equals,
    LessThan,
    GreaterThan,
    LessEq,
    GreaterEq,
    NotEquals,
    LeftParen,
    RightParen,
    Comma,
}

/// A lexical error: what went wrong, and how many characters had been read.
#[derive(Debug)]
pub struct LexerError {
    pub message: String,
    pub position: usize,
}

impl LexerError {
    /// The human-readable text of this error, with its position.
    pub fn describe(&self) -> (r: String)
        ensures
            r@ == self.message@ + " at position "@ + decimal(self.position as nat),
    {
        let mut s = self.message.clone();
        s.append(" at position ");
        push_decimal(&mut s, self.position as u64);
        s
    }
}

/// Mathematical value of a token: a string literal's text, or the token itself.
pub enum Lexeme {
    Text(Seq<char>),
    Fixed(Token),
}

impl View for Token {
    type V = Lexeme;

    open spec fn view(&self) -> Lexeme {
        match self {
            Token::String(s) => Lexeme::Text(s@),
            _ => Lexeme::Fixed(*self),
        }
    }
}

/// The values of a sequence of tokens.
pub open spec fn lexemes(ts: Seq<Token>) -> Seq<Lexeme> {
    ts.map_values(|t: Token| t@)
}

/// The end of the run of digits that starts at `i`.
pub open spec fn digits_end(cs: Seq<char>, i: int) -> int
    decreases cs.len() - i,
{
    if 0 <= i < cs.len() && is_digit(cs[i]) {
        digits_end(cs, i + 1)
    } else {
        i
    }
}

/// The end of the run of letters and digits that starts at `i`.
pub open spec fn alnum_end(cs: Seq<char>, i: int) -> int
    decreases cs.len() - i,
{
    if 0 <= i < cs.len() && is_alnum(cs[i]) {
        alnum_end(cs, i + 1)
    } else {
        i
    }
}

/// The first double quote at or after `i`, or the length of `cs` if none.
pub open spec fn quote_from(cs: Seq<char>, i: int) -> int
    decreases cs.len() - i,
{
    if 0 <= i < cs.len() && cs[i] != '"' {
        quote_from(cs, i + 1)
    } else {
        i
    }
}

/// The value of a run of decimal digits.
pub open spec fn digits_value(ds: Seq<char>) -> int
    decreases ds.len(),
{
    if ds.len() == 0 {
        0
    } else {
        10 * digits_value(ds.drop_last()) + digit_value(ds.last())
    }
}

/// Integer literals saturate at the largest `i32`.
pub open spec fn saturate(v: int) -> i32 {
    if v > i32::MAX {
        i32::MAX
    } else {
        v as i32
    }
}

/// The keyword that an upper-case word spells, if any.
pub open spec fn keyword(w: Seq<char>) -> Option<Token> {
    if w =~= seq!['P', 'R', 'I', 'N', 'T'] {
        Some(Token::Print)
    } else if w =~= seq!['L', 'E', 'T'] {
        Some(Token::Let)
    } else if w =~= seq!['G', 'O', 'T', 'O'] {
        Some(Token::Goto)
    } else if w =~= seq!['I', 'F'] {
        Some(Token::If)
    } else if w =~= seq!['T', 'H', 'E', 'N'] {
        Some(Token::Then)
    } else if w =~= seq!['E', 'N', 'D'] {
        Some(Token::End)
    } else if w =~= seq!['D', 'I', 'M'] {
        Some(Token::Dim)
    } else {
        None
    }
}

/// The token of a one-character operator or punctuation mark.
pub open spec fn single_token(c: char) -> Option<Token> {
    if c == '+' {
        Some(Token::Plus)
    } else if c == '-' {
        Some(Token::Minus)
    } else if c == '*' {
        Some(Token::Star)
    } else if c == '/' {
        Some(Token::Slash)
    } else if c == '(' {
        Some(Token::LeftParen)
    } else if c == ')' {
        Some(Token::RightParen)
    } else if c == ',' {
        Some(Token::Comma)
    } else if c == '=' {
        Some(Token::Equals)
    } else {
        None
    }
}

/// What one scanning step at a position does.
pub enum Scan {
    /// The character separates tokens and is dropped.
    Skip,
    /// A token is read.
    Emit(Lexeme),
    /// Scanning fails with this message.
    Fail(Seq<char>),
}

/// One scanning step at position `i` (with `0 <= i < cs.len()`): what it
/// yields, and the position after it.
pub open spec fn scan_at(cs: Seq<char>, i: int) -> (Scan, int) {
    let c = cs[i];
    let next = if i + 1 < cs.len() { Some(cs[i + 1]) } else { None };
    if is_blank(c) {
        (Scan::Skip, i + 1)
    } else if single_token(c) is Some {
        (Scan::Emit(Lexeme::Fixed(single_token(c)->0)), i + 1)
    } else if c == '<' {
        if next == Some('=') {
            (Scan::Emit(Lexeme::Fixed(Token::LessEq)), i + 2)
        } else if next == Some('>') {
            (Scan::Emit(Lexeme::Fixed(Token::NotEquals)), i + 2)
        } else {
            (Scan::Emit(Lexeme::Fixed(Token::LessThan)), i + 1)
        }
    } else if c == '>' {
        if next == Some('=') {
            (Scan::Emit(Lexeme::Fixed(Token::GreaterEq)), i + 2)
        } else {
            (Scan::Emit(Lexeme::Fixed(Token::GreaterThan)), i + 1)
        }
    } else if c == '"' {
        let q = quote_from(cs, i + 1);
        if q >= cs.len() {
            (Scan::Fail("Unterminated string"@), cs.len() as int)
        } else {
            (Scan::Emit(Lexeme::Text(cs.subrange(i + 1, q))), q + 1)
        }
    } else if is_digit(c) {
        let j = digits_end(cs, i + 1);
        (Scan::Emit(Lexeme::Fixed(Token::Number(saturate(digits_value(cs.subrange(i, j)))))), j)
    } else if is_letter(c) {
        let j = alnum_end(cs, i + 1);
        let w = cs.subrange(i, j).map_values(|x: char| upper(x));
        if keyword(w) is Some {
            (Scan::Emit(Lexeme::Fixed(keyword(w)->0)), j)
        } else if w.len() == 1 {
            (Scan::Emit(Lexeme::Fixed(Token::Ident(w[0]))), j)
        } else {
            (Scan::Fail("Invalid identifier: "@ + w), j)
        }
    } else {
        (Scan::Fail("Unexpected character: "@.push(c)), i + 1)
    }
}

/// The tokens of `cs` from position `i` on, or the first error's message and
/// position.
pub open spec fn lex_from(cs: Seq<char>, i: int) -> Result<Seq<Lexeme>, (Seq<char>, int)>
    decreases cs.len() - i,
    via lex_from_decreases
{
    if i < 0 || i >= cs.len() {
        Ok(seq![])
    } else {
        let j = scan_at(cs, i).1;
        match scan_at(cs, i).0 {
            Scan::Skip => lex_from(cs, j),
            Scan::Fail(m) => Err((m, j)),
            Scan::Emit(l) => prepend(seq![l], lex_from(cs, j)),
        }
    }
}

#[via_fn]
proof fn lex_from_decreases(cs: Seq<char>, i: int) {
    if 0 <= i < cs.len() {
        lemma_run_ends(cs, i + 1);
        assert(scan_at(cs, i).1 > i);
    }
}

/// The tokens of a whole text.
pub open spec fn lex(cs: Seq<char>) -> Result<Seq<Lexeme>, (Seq<char>, int)> {
    lex_from(cs, 0)
}

/// `acc` placed before the tokens of an outcome.
pub open spec fn prepend(
    acc: Seq<Lexeme>,
    r: Result<Seq<Lexeme>, (Seq<char>, int)>,
) -> Result<Seq<Lexeme>, (Seq<char>, int)> {
    match r {
        Ok(rest) => Ok(acc + rest),
        Err(e) => Err(e),
    }
}

proof fn lemma_run_ends(cs: Seq<char>, i: int)
    requires
        0 <= i,
    ensures
        i <= digits_end(cs, i),
        i <= alnum_end(cs, i),
        i <= quote_from(cs, i),
        i <= cs.len() ==> quote_from(cs, i) <= cs.len(),
        i <= cs.len() ==> digits_end(cs, i) <= cs.len(),
        i <= cs.len() ==> alnum_end(cs, i) <= cs.len(),
    decreases cs.len() - i,
{
    if i < cs.len() {
        lemma_run_ends(cs, i + 1);
    }
}

proof fn lemma_prepend_emit(acc: Seq<Lexeme>, l: Lexeme, r: Result<Seq<Lexeme>, (Seq<char>, int)>)
    ensures
        prepend(acc, prepend(seq![l], r)) == prepend(acc.push(l), r),
{
    if let Ok(rest) = r {
        assert(acc + (seq![l] + rest) =~= acc.push(l) + rest);
    }
}

proof fn lemma_decimal_digits(n: nat)
    ensures
        decimal(n).len() >= 1,
        forall|k: int| 0 <= k < decimal(n).len() ==> is_digit(#[trigger] decimal(n)[k]),
        digits_value(decimal(n)) == n,
    decreases n,
{
    if n >= 10 {
        lemma_decimal_digits(n / 10);
        assert(decimal(n).drop_last() =~= decimal(n / 10));
    } else {
        assert(decimal(n).drop_last() =~= seq![]);
        assert(digits_value(decimal(n).drop_last()) == 0);
    }
}

proof fn lemma_digits_to_end(cs: Seq<char>, k: int)
    requires
        0 <= k <= cs.len(),
        forall|m: int| k <= m < cs.len() ==> is_digit(#[trigger] cs[m]),
    ensures
        digits_end(cs, k) == cs.len(),
    decreases cs.len() - k,
{
    if k < cs.len() {
        lemma_digits_to_end(cs, k + 1);
    }
}

/// The decimal text of a non-negative integer reads back as exactly one
/// integer token holding that integer.
pub proof fn lemma_number_text(n: i32)
    requires
        n >= 0,
    ensures
        lex(decimal(n as nat)) == Ok::<Seq<Lexeme>, (Seq<char>, int)>(
            seq![Lexeme::Fixed(Token::Number(n))],
        ),
{
    let cs = decimal(n as nat);
    lemma_decimal_digits(n as nat);
    lemma_digits_to_end(cs, 1);
    assert(cs.subrange(0, cs.len() as int) =~= cs);
    assert(scan_at(cs, 0) == (
        Scan::Emit(Lexeme::Fixed(Token::Number(n))),
        cs.len() as int,
    ));
    assert(lex_from(cs, cs.len() as int) == Ok::<Seq<Lexeme>, (Seq<char>, int)>(seq![]));
    assert(seq![Lexeme::Fixed(Token::Number(n))] + seq![] =~= seq![
        Lexeme::Fixed(Token::Number(n)),
    ]);
}

/// A tokenizer over one text.
pub struct Lexer {
    input: Vec<char>,
    position: usize,
}

impl Lexer {
    /// The text being read.
    pub closed spec fn text(&self) -> Seq<char> {
        self.input@
    }

    /// How many characters have been read.
    pub closed spec fn pos(&self) -> int {
        self.position as int
    }

    pub closed spec fn wf(&self) -> bool {
        self.position <= self.input.len()
    }

    pub fn new(input: &str) -> (r: Lexer)
        ensures
            r.text() == input@,
            r.pos() == 0,
            r.wf(),
    {
        let mut chars: Vec<char> = Vec::new();
        for c in it: input.chars()
            invariant
                chars@ == it.seq().take(it.index() as int),
        {
            chars.push(c);
        }
        Lexer { input: chars, position: 0 }
    }

    fn advance(&mut self) -> (r: Option<char>)
        requires
            old(self).wf(),
        ensures
            final(self).wf(),
            final(self).input == old(self).input,
            old(self).position < old(self).input.len() ==> r == Some(old(self).input@[old(
                self,
            ).position as int]) && final(self).position == old(self).position + 1,
            old(self).position >= old(self).input.len() ==> r is None && final(self).position
                == old(self).position,
    {
        if self.position < self.input.len() {
            let c = self.input[self.position];
            self.position += 1;
            Some(c)
        } else {
            None
        }
    }

    fn peek(&self) -> (r: Option<char>)
        requires
            self.wf(),
        ensures
            self.position < self.input.len() ==> r == Some(self.input@[self.position as int]),
            self.position >= self.input.len() ==> r is None,
    {
        if self.position < self.input.len() {
            Some(self.input[self.position])
        } else {
            None
        }
    }

    /// Skips blanks other than a newline, which is left to separate tokens.
    fn skip_whitespace(&mut self)
        requires
            old(self).wf(),
        ensures
            final(self).wf(),
            final(self).input == old(self).input,
            old(self).position <= final(self).position,
            lex_from(old(self).input@, old(self).position as int) == lex_from(
                final(self).input@,
                final(self).position as int,
            ),
            final(self).position < final(self).input.len() ==> !is_blank(
                final(self).input@[final(self).position as int],
            ) || final(self).input@[final(self).position as int] == '\n',
    {
        let ghost start = self.position as int;
        loop
            invariant
                self.wf(),
                self.input == old(self).input,
                start <= self.position,
                lex_from(self.input@, start) == lex_from(self.input@, self.position as int),
            ensures
                self.position < self.input.len() ==> !is_blank(self.input@[self.position as int])
                    || self.input@[self.position as int] == '\n',
            decreases self.input.len() - self.position,
        {
            let c = match self.peek() {
                Some(x) => x,
                None => break,
            };
            if is_blank_char(c) && c != '\n' {
                self.advance();
            } else {
                break;
            }
        }
    }

    /// Reads the rest of the text as tokens.
    pub fn tokenize(&mut self) -> (r: Result<Vec<Token>, LexerError>)
        requires
            old(self).wf(),
        ensures
            final(self).wf(),
            final(self).text() == old(self).text(),
            match r {
                Ok(ts) => lex_from(old(self).text(), old(self).pos()) == Ok::<
                    Seq<Lexeme>,
                    (Seq<char>, int),
                >(lexemes(ts@)),
                Err(e) => lex_from(old(self).text(), old(self).pos()) == Err::<
                    Seq<Lexeme>,
                    (Seq<char>, int),
                >((e.message@, e.position as int)),
            },
    {
        let ghost cs = self.input@;
        let ghost p0 = self.position as int;
        let mut tokens: Vec<Token> = Vec::new();
        loop
            invariant
                self.wf(),
                self.input@ == cs,
                cs == old(self).input@,
                p0 == old(self).position,
                lex_from(cs, p0) == prepend(lexemes(tokens@), lex_from(cs, self.position as int)),
            ensures
                self.wf(),
                self.input@ == cs,
                lex_from(cs, p0) == Ok::<Seq<Lexeme>, (Seq<char>, int)>(lexemes(tokens@)),
            decreases self.input.len() - self.position,
        {
            self.skip_whitespace();
            let ghost i = self.position as int;
            let c = match self.advance() {
                Some(ch) => ch,
                None => {
                    assert(lexemes(tokens@) + seq![] =~= lexemes(tokens@));
                    break;
                },
            };
            let token = match c {
                '\n' | '\r' => {
                    continue;
                },
                '+' => Token::Plus,
                '-' => Token::Minus,
                '*' => Token::Star,
                '/' => Token::Slash,
                '(' => Token::LeftParen,
                ')' => Token::RightParen,
                ',' => Token::Comma,
                '=' => Token::Equals,
                '<' => {
                    if self.peek() == Some('=') {
                        self.advance();
                        Token::LessEq
                    } else if self.peek() == Some('>') {
                        self.advance();
                        Token::NotEquals
                    } else {
                        Token::LessThan
                    }
                },
                '>' => {
                    if self.peek() == Some('=') {
                        self.advance();
                        Token::GreaterEq
                    } else {
                        Token::GreaterThan
                    }
                },
                '"' => {
                    proof {
                        lemma_run_ends(cs, i + 1);
                    }
                    let mut s = String::new();
                    loop
                        invariant_except_break
                            self.position <= quote_from(cs, i + 1),
                            quote_from(cs, self.position as int) == quote_from(cs, i + 1),
                            s@ == cs.subrange(i + 1, self.position as int),
                        invariant
                            self.wf(),
                            self.input@ == cs,
                            0 <= i,
                            cs == old(self).input@,
                            p0 == old(self).position,
                            lex_from(cs, p0) == prepend(lexemes(tokens@), lex_from(cs, i)),
                            i + 1 <= self.position,
                            cs[i] == '"',
                        ensures
                            self.position == quote_from(cs, i + 1) + 1,
                            s@ == cs.subrange(i + 1, quote_from(cs, i + 1)),
                        decreases self.input.len() - self.position,
                    {
                        let ghost k = self.position as int;
                        match self.advance() {
                            Some('"') => break,
                            Some(ch) => {
                                proof {
                                    lemma_run_ends(cs, k + 1);
                                }
                                push_char(&mut s, ch);
                                assert(s@ =~= cs.subrange(i + 1, self.position as int));
                            },
                            None => {
                                assert(quote_from(cs, self.position as int) == self.position);
                                let message = String::from_str("Unterminated string");
                                assert(lex_from(cs, i) == Err::<Seq<Lexeme>, (Seq<char>, int)>(
                                    (message@, self.position as int),
                                ));
                                return Err(LexerError { message, position: self.position });
                            },
                        }
                    }
                    Token::String(s)
                },
                '0'..='9' => {
                    let mut num: i32 = (c as u32 - 48) as i32;
                    assert(cs.subrange(i, i + 1).drop_last() =~= seq![]);
                    assert(digits_value(cs.subrange(i, i + 1).drop_last()) == 0);
                    loop
                        invariant
                            self.wf(),
                            self.input@ == cs,
                            0 <= i,
                            cs == old(self).input@,
                            p0 == old(self).position,
                            lex_from(cs, p0) == prepend(lexemes(tokens@), lex_from(cs, i)),
                            i + 1 <= self.position,
                            digits_end(cs, self.position as int) == digits_end(cs, i + 1),
                            num == saturate(digits_value(cs.subrange(i, self.position as int))),
                            digits_value(cs.subrange(i, self.position as int)) >= 0,
                        ensures
                            digits_end(cs, i + 1) == self.position,
                            num == saturate(digits_value(cs.subrange(i, self.position as int))),
                        decreases self.input.len() - self.position,
                    {
                        let d = match self.peek() {
                            Some(x) => x,
                            None => break,
                        };
                        if is_digit_char(d) {
                            let ghost k = self.position as int;
                            let ghost v = digits_value(cs.subrange(i, k));
                            self.advance();
                            let dv: i32 = (d as u32 - 48) as i32;
                            assert(cs.subrange(i, k + 1).drop_last() =~= cs.subrange(i, k));
                            assert(digits_value(cs.subrange(i, k + 1)) == 10 * v + dv);
                            if num > (i32::MAX - dv) / 10 {
                                assert(10 * v + dv > i32::MAX) by (nonlinear_arith)
                                    requires
                                        num > (i32::MAX - dv) / 10,
                                        num == saturate(v),
                                        0 <= dv <= 9,
                                        v >= 0,
                                ;
                                num = i32::MAX;
                            } else {
                                assert(num * 10 + dv <= i32::MAX) by (nonlinear_arith)
                                    requires
                                        num <= (i32::MAX - dv) / 10,
                                        0 <= dv <= 9,
                                ;
                                assert(v <= i32::MAX) by (nonlinear_arith)
                                    requires
                                        num == saturate(v),
                                        num * 10 + dv <= i32::MAX,
                                        0 <= dv,
                                ;
                                num = num * 10 + dv;
                            }
                        } else {
                            break;
                        }
                    }
                    Token::Number(num)
                },
                'A'..='Z' | 'a'..='z' => {
                    let mut word: Vec<char> = Vec::new();
                    word.push(to_upper(c));
                    assert(word@ =~= cs.subrange(i, i + 1).map_values(|x: char| upper(x)));
                    loop
                        invariant
                            self.wf(),
                            self.input@ == cs,
                            0 <= i,
                            cs == old(self).input@,
                            p0 == old(self).position,
                            lex_from(cs, p0) == prepend(lexemes(tokens@), lex_from(cs, i)),
                            i + 1 <= self.position,
                            is_letter(cs[i]),
                            alnum_end(cs, self.position as int) == alnum_end(cs, i + 1),
                            word@ == cs.subrange(i, self.position as int).map_values(
                                |x: char| upper(x),
                            ),
                        ensures
                            alnum_end(cs, i + 1) == self.position,
                            word@ == cs.subrange(i, self.position as int).map_values(
                                |x: char| upper(x),
                            ),
                        decreases self.input.len() - self.position,
                    {
                        let ch = match self.peek() {
                            Some(x) => x,
                            None => break,
                        };
                        if is_alnum_char(ch) {
                            self.advance();
                            word.push(to_upper(ch));
                            assert(word@ =~= cs.subrange(i, self.position as int).map_values(
                                |x: char| upper(x),
                            ));
                        } else {
                            break;
                        }
                    }
                    match keyword_token(&word) {
                        Some(t) => t,
                        None => {
                            if word.len() == 1 {
                                Token::Ident(word[0])
                            } else {
                                let mut message = String::from_str("Invalid identifier: ");
                                push_chars(&mut message, &word);
                                assert(lex_from(cs, i) == Err::<Seq<Lexeme>, (Seq<char>, int)>(
                                    (message@, self.position as int),
                                ));
                                return Err(LexerError { message, position: self.position });
                            }
                        },
                    }
                },
                _ => {
                    let mut message = String::from_str("Unexpected character: ");
                    push_char(&mut message, c);
                    assert(lex_from(cs, i) == Err::<Seq<Lexeme>, (Seq<char>, int)>(
                        (message@, self.position as int),
                    ));
                    return Err(LexerError { message, position: self.position });
                },
            };
            proof {
                lemma_prepend_emit(lexemes(tokens@), token@, lex_from(cs, self.position as int));
            }
            let ghost before = tokens@;
            tokens.push(token);
            assert(lexemes(tokens@) =~= lexemes(before).push(token@));
        }
        Ok(tokens)
    }
}

/// The keyword token that an upper-case word spells, if any.
fn keyword_token(w: &Vec<char>) -> (r: Option<Token>)
    ensures
        r == keyword(w@),
{
    let n = w.len();
    if n == 5 && w[0] == 'P' && w[1] == 'R' && w[2] == 'I' && w[3] == 'N' && w[4] == 'T' {
        Some(Token::Print)
    } else if n == 3 && w[0] == 'L' && w[1] == 'E' && w[2] == 'T' {
        Some(Token::Let)
    } else if n == 4 && w[0] == 'G' && w[1] == 'O' && w[2] == 'T' && w[3] == 'O' {
        Some(Token::Goto)
    } else if n == 2 && w[0] == 'I' && w[1] == 'F' {
        Some(Token::If)
    } else if n == 4 && w[0] == 'T' && w[1] == 'H' && w[2] == 'E' && w[3] == 'N' {
        Some(Token::Then)
    } else if n == 3 && w[0] == 'E' && w[1] == 'N' && w[2] == 'D' {
        Some(Token::End)
    } else if n == 3 && w[0] == 'D' && w[1] == 'I' && w[2] == 'M' {
        Some(Token::Dim)
    } else {
        None
    }
}

} // verus!
