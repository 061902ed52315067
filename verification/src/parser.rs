//! Lexer and recursive-descent parser for the surface language. These are
//! collaborators of the machine core: they produce the declaration list
//! that the type checker validates and the compiler lowers. Both are
//! written down whole as spec functions — the lexer as [`lex_from`], the
//! grammar as [`parse_spec`] and its productions — and the executable
//! lexer and every parsing production are proved to follow them exactly.

use vstd::prelude::*;
use vstd::string::*;
use crate::ast::{Declaration, Expression, Statement, Type};

verus! {

/// One lexical token of the surface language.
#[derive(Debug)]
pub enum Token {
    Comment,
    KwFn,
    KwLet,
    KwReturn,
    Number(u32),
    Identifier(String),
    StringLiteral(String),
    OpenParen,
    CloseParen,
    OpenBrace,
    CloseBrace,
    OpenBracket,
    CloseBracket,
    Comma,
    Colon,
    Semicolon,
    Equals,
    Add,
    Minus,
    Mod,
    Divide,
    Multiply,
    Bang,
    BangEquals,
}

impl Clone for Token {
    /// A copy equal to the original, field for field.
    fn clone(&self) -> (r: Self)
        ensures
            r == *self,
    {
        match self {
            Token::Comment => Token::Comment,
            Token::KwFn => Token::KwFn,
            Token::KwLet => Token::KwLet,
            Token::KwReturn => Token::KwReturn,
            Token::Number(n) => Token::Number(*n),
            Token::Identifier(s) => Token::Identifier(s.clone()),
            Token::StringLiteral(s) => Token::StringLiteral(s.clone()),
            Token::OpenParen => Token::OpenParen,
            Token::CloseParen => Token::CloseParen,
            Token::OpenBrace => Token::OpenBrace,
            Token::CloseBrace => Token::CloseBrace,
            Token::OpenBracket => Token::OpenBracket,
            Token::CloseBracket => Token::CloseBracket,
            Token::Comma => Token::Comma,
            Token::Colon => Token::Colon,
            Token::Semicolon => Token::Semicolon,
            Token::Equals => Token::Equals,
            Token::Add => Token::Add,
            Token::Minus => Token::Minus,
            Token::Mod => Token::Mod,
            Token::Divide => Token::Divide,
            Token::Multiply => Token::Multiply,
            Token::Bang => Token::Bang,
            Token::BangEquals => Token::BangEquals,
        }
    }
}

/// Why lexing or parsing stopped.
#[derive(Debug)]
pub enum Error {
    UnexpectedToken(Token),
    UnexpectedEof,
    UnknownCharacter(char),
}

/// The mathematical image of a token: names and literal contents as
/// character sequences.
pub ghost enum TokenView {
    Comment,
    KwFn,
    KwLet,
    KwReturn,
    Number(u32),
    Identifier(Seq<char>),
    StringLiteral(Seq<char>),
    OpenParen,
    CloseParen,
    OpenBrace,
    CloseBrace,
    OpenBracket,
    CloseBracket,
    Comma,
    Colon,
    Semicolon,
    Equals,
    Add,
    Minus,
    Mod,
    Divide,
    Multiply,
    Bang,
    BangEquals,
}

impl View for Token {
    type V = TokenView;

    open spec fn view(&self) -> TokenView {
        match self {
            Token::Comment => TokenView::Comment,
            Token::KwFn => TokenView::KwFn,
            Token::KwLet => TokenView::KwLet,
            Token::KwReturn => TokenView::KwReturn,
            Token::Number(n) => TokenView::Number(*n),
            Token::Identifier(s) => TokenView::Identifier(s@),
            Token::StringLiteral(s) => TokenView::StringLiteral(s@),
            Token::OpenParen => TokenView::OpenParen,
            Token::CloseParen => TokenView::CloseParen,
            Token::OpenBrace => TokenView::OpenBrace,
            Token::CloseBrace => TokenView::CloseBrace,
            Token::OpenBracket => TokenView::OpenBracket,
            Token::CloseBracket => TokenView::CloseBracket,
            Token::Comma => TokenView::Comma,
            Token::Colon => TokenView::Colon,
            Token::Semicolon => TokenView::Semicolon,
            Token::Equals => TokenView::Equals,
            Token::Add => TokenView::Add,
            Token::Minus => TokenView::Minus,
            Token::Mod => TokenView::Mod,
            Token::Divide => TokenView::Divide,
            Token::Multiply => TokenView::Multiply,
            Token::Bang => TokenView::Bang,
            Token::BangEquals => TokenView::BangEquals,
        }
    }
}

/// The mathematical image of a lexing or parsing error.
pub ghost enum ErrorView {
    UnexpectedToken(TokenView),
    UnexpectedEof,
    UnknownCharacter(char),
}

impl View for Error {
    type V = ErrorView;

    open spec fn view(&self) -> ErrorView {
        match self {
            Error::UnexpectedToken(t) => ErrorView::UnexpectedToken(t@),
            Error::UnexpectedEof => ErrorView::UnexpectedEof,
            Error::UnknownCharacter(c) => ErrorView::UnknownCharacter(*c),
        }
    }
}

/// May this character continue an identifier?
pub open spec fn identifier_char(c: char) -> bool {
    ('a' <= c && c <= 'z') || ('A' <= c && c <= 'Z') || ('0' <= c && c <= '9') || c == '_'
}

/// May this character continue an identifier?
fn is_identifier_char(c: char) -> (r: bool)
    ensures
        r == identifier_char(c),
{
    (c >= 'a' && c <= 'z') || (c >= 'A' && c <= 'Z') || (c >= '0' && c <= '9') || c == '_'
}

/// How many characters from `j` on belong to a comment: everything up to
/// the next line break.
pub open spec fn scan_line(s: Seq<char>, j: int) -> nat
    decreases s.len() - j
        when j <= s.len()
{
    if j < s.len() && s[j] != '\n' {
        (1 + scan_line(s, j + 1)) as nat
    } else {
        0nat
    }
}

/// How many characters from `j` on continue an identifier.
pub open spec fn scan_identifier(s: Seq<char>, j: int) -> nat
    decreases s.len() - j
        when j <= s.len()
{
    if j < s.len() && identifier_char(s[j]) {
        (1 + scan_identifier(s, j + 1)) as nat
    } else {
        0nat
    }
}

/// The value and digit count of the decimal run from `j` on, folded onto
/// `acc` with wraparound arithmetic.
pub open spec fn scan_number(s: Seq<char>, j: int, acc: u32) -> (u32, nat)
    decreases s.len() - j
        when j <= s.len()
{
    if j < s.len() && '0' <= s[j] && s[j] <= '9' {
        let rest = scan_number(
            s,
            j + 1,
            acc.wrapping_mul(10).wrapping_add(((s[j] as u32) - 48) as u32),
        );
        (rest.0, (1 + rest.1) as nat)
    } else {
        (acc, 0nat)
    }
}

/// Add `k` to the consumed-character count of a string scan.
pub open spec fn shift_scan(
    r: Result<(Seq<char>, nat), ErrorView>,
    k: nat,
) -> Result<(Seq<char>, nat), ErrorView> {
    match r {
        Ok((content, n)) => Ok((content, (n + k) as nat)),
        Err(e) => Err(e),
    }
}

/// The content and consumed length of a string literal read from `j` on,
/// just past the opening quote: escapes translate, the closing quote ends
/// it, and the input may run out or hold an unknown escape.
pub open spec fn scan_string(
    s: Seq<char>,
    j: int,
    acc: Seq<char>,
) -> Result<(Seq<char>, nat), ErrorView>
    decreases s.len() - j
        when j <= s.len()
{
    if j >= s.len() {
        Err(ErrorView::UnexpectedEof)
    } else if s[j] == '\\' {
        if j + 1 >= s.len() {
            Err(ErrorView::UnexpectedEof)
        } else if s[j + 1] == '\\' {
            shift_scan(scan_string(s, j + 2, acc.push('\\')), 2)
        } else if s[j + 1] == 'n' {
            shift_scan(scan_string(s, j + 2, acc.push('\n')), 2)
        } else if s[j + 1] == '"' {
            shift_scan(scan_string(s, j + 2, acc.push('"')), 2)
        } else {
            Err(ErrorView::UnknownCharacter(s[j + 1]))
        }
    } else if s[j] == '"' {
        Ok((acc, 1nat))
    } else {
        shift_scan(scan_string(s, j + 1, acc.push(s[j])), 1)
    }
}

/// Put one more token in front of a lexing outcome.
pub open spec fn prepend_token(
    tv: TokenView,
    r: Result<Seq<TokenView>, ErrorView>,
) -> Result<Seq<TokenView>, ErrorView> {
    match r {
        Ok(rest) => Ok(seq![tv] + rest),
        Err(e) => Err(e),
    }
}

/// The keyword a word lexes to, or an identifier token.
pub open spec fn word_token(w: Seq<char>) -> TokenView {
    if w == "fn"@ {
        TokenView::KwFn
    } else if w == "let"@ {
        TokenView::KwLet
    } else if w == "return"@ {
        TokenView::KwReturn
    } else {
        TokenView::Identifier(w)
    }
}

/// A comment scan stays within the input.
pub proof fn lemma_scan_line_bound(s: Seq<char>, j: int)
    requires
        j <= s.len(),
    ensures
        j + scan_line(s, j) <= s.len(),
    decreases s.len() - j,
{
    if j < s.len() && s[j] != '\n' {
        lemma_scan_line_bound(s, j + 1);
    }
}

/// An identifier scan stays within the input.
pub proof fn lemma_scan_identifier_bound(s: Seq<char>, j: int)
    requires
        j <= s.len(),
    ensures
        j + scan_identifier(s, j) <= s.len(),
    decreases s.len() - j,
{
    if j < s.len() && identifier_char(s[j]) {
        lemma_scan_identifier_bound(s, j + 1);
    }
}

/// A number scan stays within the input.
pub proof fn lemma_scan_number_bound(s: Seq<char>, j: int, acc: u32)
    requires
        j <= s.len(),
    ensures
        j + scan_number(s, j, acc).1 <= s.len(),
    decreases s.len() - j,
{
    if j < s.len() && '0' <= s[j] && s[j] <= '9' {
        lemma_scan_number_bound(s, j + 1, acc.wrapping_mul(10).wrapping_add(
            ((s[j] as u32) - 48) as u32,
        ));
    }
}

/// A string scan that succeeds stays within the input.
pub proof fn lemma_scan_string_bound(s: Seq<char>, j: int, acc: Seq<char>)
    requires
        j <= s.len(),
    ensures
        scan_string(s, j, acc) matches Ok(scanned) ==> j + scanned.1 <= s.len(),
    decreases s.len() - j,
{
    if j < s.len() {
        if s[j] == '\\' {
            if j + 1 < s.len() {
                if s[j + 1] == '\\' {
                    lemma_scan_string_bound(s, j + 2, acc.push('\\'));
                } else if s[j + 1] == 'n' {
                    lemma_scan_string_bound(s, j + 2, acc.push('\n'));
                } else if s[j + 1] == '"' {
                    lemma_scan_string_bound(s, j + 2, acc.push('"'));
                }
            }
        } else if s[j] != '"' {
            lemma_scan_string_bound(s, j + 1, acc.push(s[j]));
        }
    }
}

/// The tokens of the input from position `i` on: the lexer's whole
/// behaviour as mathematics.
pub open spec fn lex_from(s: Seq<char>, i: int) -> Result<Seq<TokenView>, ErrorView>
    decreases s.len() - i
        when i <= s.len()
{
    if i >= s.len() {
        Ok(Seq::empty())
    } else {
        proof {
            if i + 2 <= s.len() {
                lemma_scan_line_bound(s, i + 2);
            }
            lemma_scan_identifier_bound(s, i + 1);
            lemma_scan_number_bound(s, i + 1, ((s[i] as u32) - 48) as u32);
            lemma_scan_string_bound(s, i + 1, Seq::empty());
        }
        let c = s[i];
        if c == '(' {
            prepend_token(TokenView::OpenParen, lex_from(s, i + 1))
        } else if c == ')' {
            prepend_token(TokenView::CloseParen, lex_from(s, i + 1))
        } else if c == '[' {
            prepend_token(TokenView::OpenBracket, lex_from(s, i + 1))
        } else if c == ']' {
            prepend_token(TokenView::CloseBracket, lex_from(s, i + 1))
        } else if c == '{' {
            prepend_token(TokenView::OpenBrace, lex_from(s, i + 1))
        } else if c == '}' {
            prepend_token(TokenView::CloseBrace, lex_from(s, i + 1))
        } else if c == '=' {
            prepend_token(TokenView::Equals, lex_from(s, i + 1))
        } else if c == ':' {
            prepend_token(TokenView::Colon, lex_from(s, i + 1))
        } else if c == ';' {
            prepend_token(TokenView::Semicolon, lex_from(s, i + 1))
        } else if c == ',' {
            prepend_token(TokenView::Comma, lex_from(s, i + 1))
        } else if c == '+' {
            prepend_token(TokenView::Add, lex_from(s, i + 1))
        } else if c == '-' {
            prepend_token(TokenView::Minus, lex_from(s, i + 1))
        } else if c == '*' {
            prepend_token(TokenView::Multiply, lex_from(s, i + 1))
        } else if c == '%' {
            prepend_token(TokenView::Mod, lex_from(s, i + 1))
        } else if c == '/' {
            if i + 1 < s.len() && s[i + 1] == '/' {
                prepend_token(TokenView::Comment, lex_from(s, i + 2 + scan_line(s, i + 2)))
            } else {
                prepend_token(TokenView::Divide, lex_from(s, i + 1))
            }
        } else if c == '!' {
            if i + 1 < s.len() && s[i + 1] == '=' {
                prepend_token(TokenView::BangEquals, lex_from(s, i + 2))
            } else {
                prepend_token(TokenView::Bang, lex_from(s, i + 1))
            }
        } else if c == '"' {
            match scan_string(s, i + 1, Seq::empty()) {
                Ok((content, consumed)) => prepend_token(
                    TokenView::StringLiteral(content),
                    lex_from(s, i + 1 + consumed),
                ),
                Err(e) => Err(e),
            }
        } else if '0' <= c && c <= '9' {
            let scanned = scan_number(s, i + 1, ((c as u32) - 48) as u32);
            prepend_token(TokenView::Number(scanned.0), lex_from(s, i + 1 + scanned.1))
        } else if ('a' <= c && c <= 'z') || ('A' <= c && c <= 'Z') || c == '_' {
            let m = scan_identifier(s, i + 1);
            prepend_token(word_token(s.subrange(i, i + 1 + m)), lex_from(s, i + 1 + m))
        } else if c == ' ' || c == '\t' || c == '\n' || c == '\r' {
            lex_from(s, i + 1)
        } else {
            Err(ErrorView::UnknownCharacter(c))
        }
    }
}

/// What it means for the lexer to have reached position `i` with `done`
/// tokens already produced: the whole result is the done tokens followed
/// by whatever position `i` yields.
pub open spec fn lex_continues(s: Seq<char>, i: int, done: Seq<TokenView>) -> bool {
    match lex_from(s, i) {
        Ok(rest) => lex_from(s, 0) == Ok::<Seq<TokenView>, ErrorView>(done + rest),
        Err(e) => lex_from(s, 0) == Err::<Seq<TokenView>, ErrorView>(e),
    }
}

/// Taking one more token keeps the lexer on course.
proof fn lemma_lex_advance(s: Seq<char>, i: int, done: Seq<TokenView>, tv: TokenView, j: int)
    requires
        lex_continues(s, i, done),
        lex_from(s, i) == prepend_token(tv, lex_from(s, j)),
    ensures
        lex_continues(s, j, done.push(tv)),
{
    match lex_from(s, j) {
        Ok(rest) => {
            assert(lex_from(s, i) == Ok::<Seq<TokenView>, ErrorView>(seq![tv] + rest));
            assert(done + (seq![tv] + rest) =~= done.push(tv) + rest);
        },
        Err(e) => {},
    }
}

/// Split the input into tokens, exactly as [`lex_from`] describes:
/// comments lex to a `Comment` token, white space separates tokens and
/// lexes to nothing, and a character that can start no token, an unknown
/// escape, or an unterminated string is the error `lex_from` gives.
fn get_tokens(input: &str) -> (r: Result<Vec<Token>, Error>)
    ensures
        match r {
            Ok(ts) => lex_from(input@, 0) == Ok::<Seq<TokenView>, ErrorView>(
                ts@.map_values(|t: Token| t@),
            ),
            Err(e) => lex_from(input@, 0) == Err::<Seq<TokenView>, ErrorView>(e@),
        },
{
    let ghost s = input@;
    let mut tokens: Vec<Token> = Vec::new();
    let n = input.unicode_len();
    let mut i: usize = 0;
    proof {
        assert(tokens@.map_values(|t: Token| t@) =~= Seq::<TokenView>::empty());
        match lex_from(s, 0) {
            Ok(rest) => {
                assert(Seq::<TokenView>::empty() + rest =~= rest);
            },
            Err(e) => {},
        }
    }
    while i < n
        invariant
            s == input@,
            n == s.len(),
            i <= n,
            lex_continues(s, i as int, tokens@.map_values(|t: Token| t@)),
        decreases n - i,
    {
        let ghost pre_i = i as int;
        let ghost done = tokens@.map_values(|t: Token| t@);
        let c = input.get_char(i);
        if c == '(' {
            tokens.push(Token::OpenParen);
            i = i + 1;
            proof {
                lemma_lex_advance(s, pre_i, done, TokenView::OpenParen, pre_i + 1);
                assert(tokens@.map_values(|t: Token| t@) =~= done.push(TokenView::OpenParen));
            }
        } else if c == ')' {
            tokens.push(Token::CloseParen);
            i = i + 1;
            proof {
                lemma_lex_advance(s, pre_i, done, TokenView::CloseParen, pre_i + 1);
                assert(tokens@.map_values(|t: Token| t@) =~= done.push(TokenView::CloseParen));
            }
        } else if c == '[' {
            tokens.push(Token::OpenBracket);
            i = i + 1;
            proof {
                lemma_lex_advance(s, pre_i, done, TokenView::OpenBracket, pre_i + 1);
                assert(tokens@.map_values(|t: Token| t@) =~= done.push(TokenView::OpenBracket));
            }
        } else if c == ']' {
            tokens.push(Token::CloseBracket);
            i = i + 1;
            proof {
                lemma_lex_advance(s, pre_i, done, TokenView::CloseBracket, pre_i + 1);
                assert(tokens@.map_values(|t: Token| t@) =~= done.push(TokenView::CloseBracket));
            }
        } else if c == '{' {
            tokens.push(Token::OpenBrace);
            i = i + 1;
            proof {
                lemma_lex_advance(s, pre_i, done, TokenView::OpenBrace, pre_i + 1);
                assert(tokens@.map_values(|t: Token| t@) =~= done.push(TokenView::OpenBrace));
            }
        } else if c == '}' {
            tokens.push(Token::CloseBrace);
            i = i + 1;
            proof {
                lemma_lex_advance(s, pre_i, done, TokenView::CloseBrace, pre_i + 1);
                assert(tokens@.map_values(|t: Token| t@) =~= done.push(TokenView::CloseBrace));
            }
        } else if c == '=' {
            tokens.push(Token::Equals);
            i = i + 1;
            proof {
                lemma_lex_advance(s, pre_i, done, TokenView::Equals, pre_i + 1);
                assert(tokens@.map_values(|t: Token| t@) =~= done.push(TokenView::Equals));
            }
        } else if c == ':' {
            tokens.push(Token::Colon);
            i = i + 1;
            proof {
                lemma_lex_advance(s, pre_i, done, TokenView::Colon, pre_i + 1);
                assert(tokens@.map_values(|t: Token| t@) =~= done.push(TokenView::Colon));
            }
        } else if c == ';' {
            tokens.push(Token::Semicolon);
            i = i + 1;
            proof {
                lemma_lex_advance(s, pre_i, done, TokenView::Semicolon, pre_i + 1);
                assert(tokens@.map_values(|t: Token| t@) =~= done.push(TokenView::Semicolon));
            }
        } else if c == ',' {
            tokens.push(Token::Comma);
            i = i + 1;
            proof {
                lemma_lex_advance(s, pre_i, done, TokenView::Comma, pre_i + 1);
                assert(tokens@.map_values(|t: Token| t@) =~= done.push(TokenView::Comma));
            }
        } else if c == '+' {
            tokens.push(Token::Add);
            i = i + 1;
            proof {
                lemma_lex_advance(s, pre_i, done, TokenView::Add, pre_i + 1);
                assert(tokens@.map_values(|t: Token| t@) =~= done.push(TokenView::Add));
            }
        } else if c == '-' {
            tokens.push(Token::Minus);
            i = i + 1;
            proof {
                lemma_lex_advance(s, pre_i, done, TokenView::Minus, pre_i + 1);
                assert(tokens@.map_values(|t: Token| t@) =~= done.push(TokenView::Minus));
            }
        } else if c == '*' {
            tokens.push(Token::Multiply);
            i = i + 1;
            proof {
                lemma_lex_advance(s, pre_i, done, TokenView::Multiply, pre_i + 1);
                assert(tokens@.map_values(|t: Token| t@) =~= done.push(TokenView::Multiply));
            }
        } else if c == '%' {
            tokens.push(Token::Mod);
            i = i + 1;
            proof {
                lemma_lex_advance(s, pre_i, done, TokenView::Mod, pre_i + 1);
                assert(tokens@.map_values(|t: Token| t@) =~= done.push(TokenView::Mod));
            }
        } else if c == '/' {
            i = i + 1;
            if i < n && input.get_char(i) == '/' {
                i = i + 1;
                let ghost comment_start = i as int;
                while i < n && input.get_char(i) != '\n'
                    invariant
                        s == input@,
                        n == s.len(),
                        comment_start <= i <= n,
                        scan_line(s, comment_start) == (i - comment_start) + scan_line(
                            s,
                            i as int,
                        ),
                    decreases n - i,
                {
                    i = i + 1;
                }
                tokens.push(Token::Comment);
                proof {
                    assert(scan_line(s, i as int) == 0);
                    assert(pre_i + 2 + scan_line(s, comment_start) == i);
                    lemma_lex_advance(s, pre_i, done, TokenView::Comment, i as int);
                    assert(tokens@.map_values(|t: Token| t@) =~= done.push(TokenView::Comment));
                }
            } else {
                tokens.push(Token::Divide);
                proof {
                    lemma_lex_advance(s, pre_i, done, TokenView::Divide, pre_i + 1);
                    assert(tokens@.map_values(|t: Token| t@) =~= done.push(TokenView::Divide));
                }
            }
        } else if c == '!' {
            i = i + 1;
            if i < n && input.get_char(i) == '=' {
                tokens.push(Token::BangEquals);
                i = i + 1;
                proof {
                    lemma_lex_advance(s, pre_i, done, TokenView::BangEquals, pre_i + 2);
                    assert(tokens@.map_values(|t: Token| t@) =~= done.push(
                        TokenView::BangEquals,
                    ));
                }
            } else {
                tokens.push(Token::Bang);
                proof {
                    lemma_lex_advance(s, pre_i, done, TokenView::Bang, pre_i + 1);
                    assert(tokens@.map_values(|t: Token| t@) =~= done.push(TokenView::Bang));
                }
            }
        } else if c == '"' {
            i = i + 1;
            let mut string = String::new();
            let mut closed = false;
            let ghost literal_start = i as int;
            proof {
                match scan_string(s, literal_start, Seq::empty()) {
                    Ok(scanned) => {},
                    Err(e) => {},
                }
            }
            while !closed && i < n
                invariant
                    s == input@,
                    n == s.len(),
                    0 <= pre_i < n,
                    s[pre_i] == '"',
                    literal_start == pre_i + 1,
                    lex_continues(s, pre_i, done),
                    literal_start <= i <= n,
                    !closed ==> scan_string(s, literal_start, Seq::empty()) == shift_scan(
                        scan_string(s, i as int, string@),
                        (i - literal_start) as nat,
                    ),
                    closed ==> scan_string(s, literal_start, Seq::empty())
                        == Ok::<(Seq<char>, nat), ErrorView>((
                        string@,
                        (i - literal_start) as nat,
                    )),
                decreases n - i + (if closed { 0int } else { 1int }),
            {
                let ghost loop_i = i as int;
                let ghost content = string@;
                let c2 = input.get_char(i);
                if c2 == '\\' {
                    if i + 1 >= n {
                        proof {
                            assert(scan_string(s, loop_i, content)
                                == Err::<(Seq<char>, nat), ErrorView>(ErrorView::UnexpectedEof));
                            assert(scan_string(s, literal_start, Seq::empty())
                                == Err::<(Seq<char>, nat), ErrorView>(ErrorView::UnexpectedEof));
                            assert(lex_from(s, pre_i) == Err::<Seq<TokenView>, ErrorView>(
                                ErrorView::UnexpectedEof,
                            ));
                        }
                        return Err(Error::UnexpectedEof);
                    }
                    let c3 = input.get_char(i + 1);
                    if c3 == '\\' {
                        string.append("\\");
                        proof {
                            reveal_strlit("\\");
                            assert(string@ =~= content.push('\\'));
                        }
                    } else if c3 == 'n' {
                        string.append("\n");
                        proof {
                            reveal_strlit("\n");
                            assert(string@ =~= content.push('\n'));
                        }
                    } else if c3 == '"' {
                        string.append("\"");
                        proof {
                            reveal_strlit("\"");
                            assert(string@ =~= content.push('"'));
                        }
                    } else {
                        proof {
                            assert(scan_string(s, loop_i, content)
                                == Err::<(Seq<char>, nat), ErrorView>(
                                ErrorView::UnknownCharacter(s[loop_i + 1]),
                            ));
                            assert(scan_string(s, literal_start, Seq::empty())
                                == Err::<(Seq<char>, nat), ErrorView>(
                                ErrorView::UnknownCharacter(s[loop_i + 1]),
                            ));
                            assert(lex_from(s, pre_i) == Err::<Seq<TokenView>, ErrorView>(
                                ErrorView::UnknownCharacter(s[loop_i + 1]),
                            ));
                        }
                        return Err(Error::UnknownCharacter(c3));
                    }
                    i = i + 2;
                    proof {
                        assert(scan_string(s, loop_i, content) == shift_scan(
                            scan_string(s, loop_i + 2, string@),
                            2nat,
                        ));
                        match scan_string(s, i as int, string@) {
                            Ok(scanned) => {},
                            Err(e) => {},
                        }
                    }
                } else if c2 == '"' {
                    closed = true;
                    i = i + 1;
                    proof {
                        assert(scan_string(s, loop_i, content)
                            == Ok::<(Seq<char>, nat), ErrorView>((content, 1nat)));
                    }
                } else {
                    string.append(input.substring_char(i, i + 1));
                    i = i + 1;
                    proof {
                        assert(s.subrange(loop_i, loop_i + 1) =~= seq![s[loop_i]]);
                        assert(string@ =~= content.push(s[loop_i]));
                        assert(scan_string(s, loop_i, content) == shift_scan(
                            scan_string(s, loop_i + 1, string@),
                            1nat,
                        ));
                        match scan_string(s, i as int, string@) {
                            Ok(scanned) => {},
                            Err(e) => {},
                        }
                    }
                }
            }
            if !closed {
                proof {
                    assert(scan_string(s, i as int, string@)
                        == Err::<(Seq<char>, nat), ErrorView>(ErrorView::UnexpectedEof));
                }
                return Err(Error::UnexpectedEof);
            }
            tokens.push(Token::StringLiteral(string));
            proof {
                lemma_lex_advance(
                    s,
                    pre_i,
                    done,
                    TokenView::StringLiteral(tokens@.last()@->StringLiteral_0),
                    i as int,
                );
                assert(tokens@.map_values(|t: Token| t@) =~= done.push(
                    tokens@.last()@,
                ));
            }
        } else if c >= '0' && c <= '9' {
            let mut value: u32 = c as u32 - 48;
            i = i + 1;
            let ghost digits_start = i as int;
            let ghost v0 = value;
            while i < n && input.get_char(i) >= '0' && input.get_char(i) <= '9'
                invariant
                    s == input@,
                    n == s.len(),
                    digits_start <= i <= n,
                    scan_number(s, digits_start, v0).0 == scan_number(s, i as int, value).0,
                    digits_start + scan_number(s, digits_start, v0).1 == i + scan_number(
                        s,
                        i as int,
                        value,
                    ).1,
                decreases n - i,
            {
                let d = input.get_char(i);
                value = value.wrapping_mul(10).wrapping_add(d as u32 - 48);
                i = i + 1;
            }
            tokens.push(Token::Number(value));
            proof {
                assert(scan_number(s, i as int, value) == (value, 0nat));
                assert(scan_number(s, digits_start, v0).0 == value);
                assert(pre_i + 1 + scan_number(s, digits_start, v0).1 == i);
                lemma_lex_advance(s, pre_i, done, TokenView::Number(value), i as int);
                assert(tokens@.map_values(|t: Token| t@) =~= done.push(TokenView::Number(value)));
            }
        } else if (c >= 'a' && c <= 'z') || (c >= 'A' && c <= 'Z') || c == '_' {
            let start = i;
            i = i + 1;
            while i < n && is_identifier_char(input.get_char(i))
                invariant
                    s == input@,
                    n == s.len(),
                    start < i <= n,
                    scan_identifier(s, start + 1) == (i - start - 1) + scan_identifier(
                        s,
                        i as int,
                    ),
                decreases n - i,
            {
                i = i + 1;
            }
            let word = input.substring_char(start, i).to_owned();
            proof {
                assert(scan_identifier(s, i as int) == 0);
                assert(start + 1 + scan_identifier(s, start + 1) == i);
                assert(word@ == s.subrange(start as int, i as int));
            }
            if word == "fn".to_owned() {
                tokens.push(Token::KwFn);
                proof {
                    lemma_lex_advance(s, pre_i, done, TokenView::KwFn, i as int);
                    assert(tokens@.map_values(|t: Token| t@) =~= done.push(TokenView::KwFn));
                }
            } else if word == "let".to_owned() {
                tokens.push(Token::KwLet);
                proof {
                    lemma_lex_advance(s, pre_i, done, TokenView::KwLet, i as int);
                    assert(tokens@.map_values(|t: Token| t@) =~= done.push(TokenView::KwLet));
                }
            } else if word == "return".to_owned() {
                tokens.push(Token::KwReturn);
                proof {
                    lemma_lex_advance(s, pre_i, done, TokenView::KwReturn, i as int);
                    assert(tokens@.map_values(|t: Token| t@) =~= done.push(TokenView::KwReturn));
                }
            } else {
                let ghost w = word@;
                tokens.push(Token::Identifier(word));
                proof {
                    assert(word_token(w) == TokenView::Identifier(w));
                    lemma_lex_advance(s, pre_i, done, TokenView::Identifier(w), i as int);
                    assert(tokens@.map_values(|t: Token| t@) =~= done.push(
                        TokenView::Identifier(w),
                    ));
                }
            }
        } else if c == ' ' || c == '\t' || c == '\n' || c == '\r' {
            i = i + 1;
            proof {
                assert(lex_from(s, pre_i) == lex_from(s, pre_i + 1));
            }
        } else {
            proof {
                assert(lex_from(s, pre_i) == Err::<Seq<TokenView>, ErrorView>(
                    ErrorView::UnknownCharacter(s[pre_i]),
                ));
            }
            return Err(Error::UnknownCharacter(c));
        }
    }
    proof {
        assert(lex_from(s, n as int) == Ok::<Seq<TokenView>, ErrorView>(Seq::empty()));
        match lex_from(s, 0) {
            Ok(all) => {
                assert(tokens@.map_values(|t: Token| t@) + Seq::<TokenView>::empty()
                    =~= tokens@.map_values(|t: Token| t@));
            },
            Err(e) => {},
        }
    }
    Ok(tokens)
}


/// The mathematical image of an expression: names as character sequences.
pub ghost enum ExprV {
    Call(Seq<char>, Seq<ExprV>),
    Variable(Seq<char>),
    Add(Box<ExprV>, Box<ExprV>),
    Sub(Box<ExprV>, Box<ExprV>),
    Mul(Box<ExprV>, Box<ExprV>),
    Div(Box<ExprV>, Box<ExprV>),
    Mod(Box<ExprV>, Box<ExprV>),
    NumLiteral(u32),
}

/// The mathematical image of a statement.
pub ghost enum StmtV {
    Let(Seq<char>, Option<crate::typechecker::TypeV>, ExprV),
    Expr(ExprV),
    Return(ExprV),
}

/// The mathematical image of a declaration.
pub ghost struct DeclV {
    pub name: Seq<char>,
    pub arguments: Seq<(Seq<char>, crate::typechecker::TypeV)>,
    pub return_type: crate::typechecker::TypeV,
    pub body: Seq<StmtV>,
}

/// The mathematical image of an expression value.
pub open spec fn expr_view(e: Expression) -> ExprV
    decreases e, 0nat,
{
    match e {
        Expression::Call(name, args) => ExprV::Call(name@, exprs_view(args@)),
        Expression::Variable(name) => ExprV::Variable(name@),
        Expression::Add(a, b) => ExprV::Add(Box::new(expr_view(*a)), Box::new(expr_view(*b))),
        Expression::Sub(a, b) => ExprV::Sub(Box::new(expr_view(*a)), Box::new(expr_view(*b))),
        Expression::Mul(a, b) => ExprV::Mul(Box::new(expr_view(*a)), Box::new(expr_view(*b))),
        Expression::Div(a, b) => ExprV::Div(Box::new(expr_view(*a)), Box::new(expr_view(*b))),
        Expression::Mod(a, b) => ExprV::Mod(Box::new(expr_view(*a)), Box::new(expr_view(*b))),
        Expression::NumLiteral(n) => ExprV::NumLiteral(n),
    }
}

/// The mathematical image of an expression list.
pub open spec fn exprs_view(es: Seq<Expression>) -> Seq<ExprV>
    decreases es,
{
    if es.len() == 0 {
        Seq::empty()
    } else {
        exprs_view(es.drop_last()).push(expr_view(es.last()))
    }
}

/// The mathematical image of a statement value.
pub open spec fn stmt_view(st: Statement) -> StmtV {
    match st {
        Statement::Let(name, var_type, e) => StmtV::Let(
            name@,
            match var_type {
                Some(t) => Some(crate::typechecker::type_view(t)),
                None => None,
            },
            expr_view(e),
        ),
        Statement::Expr(e) => StmtV::Expr(expr_view(e)),
        Statement::Return(e) => StmtV::Return(expr_view(e)),
    }
}

/// The mathematical image of a parameter list.
#[verifier::opaque]
pub open spec fn params_view(args: Seq<(String, Type)>) -> Seq<
    (Seq<char>, crate::typechecker::TypeV),
> {
    args.map_values(|a: (String, Type)| (a.0@, crate::typechecker::type_view(a.1)))
}

/// The mathematical image of a statement list.
pub open spec fn stmts_view(sts: Seq<Statement>) -> Seq<StmtV> {
    sts.map_values(|s: Statement| stmt_view(s))
}

/// The mathematical image of a declaration value.
pub open spec fn decl_view(d: Declaration) -> DeclV {
    match d {
        Declaration::Function { name, arguments, return_type, body } => DeclV {
            name: name@,
            arguments: params_view(arguments@),
            return_type: crate::typechecker::type_view(return_type),
            body: stmts_view(body@),
        },
    }
}

/// The mathematical image of a declaration list.
pub open spec fn decls_view(ds: Seq<Declaration>) -> Seq<DeclV> {
    ds.map_values(|d: Declaration| decl_view(d))
}

/// Each grammar production below yields its parse of the token stream
/// from position `i` on, together with how many tokens it consumed; on an
/// error the count is unused and zero. The guards that end a production
/// when a position reaches the stream's end give exactly the value the
/// continuation would: no production reads past the end.

/// One type name.
pub open spec fn parse_type_spec(ts: Seq<TokenView>, i: int) -> (
    Result<crate::typechecker::TypeV, ErrorView>,
    nat,
) {
    if i < ts.len() {
        match ts[i] {
            TokenView::Identifier(s) => if s == "u32"@ {
                (Ok(crate::typechecker::TypeV::U32), 1nat)
            } else {
                (Err(ErrorView::UnexpectedToken(TokenView::Identifier(s))), 0nat)
            },
            t => (Err(ErrorView::UnexpectedToken(t)), 0nat),
        }
    } else {
        (Err(ErrorView::UnexpectedEof), 0nat)
    }
}

/// A literal, a variable, a call, or a parenthesised expression.
pub open spec fn parse_primary_spec(ts: Seq<TokenView>, i: int) -> (
    Result<ExprV, ErrorView>,
    nat,
)
    decreases ts.len() - i, 0nat
        when 0 <= i <= ts.len()
{
    if i >= ts.len() {
        (Err(ErrorView::UnexpectedEof), 0nat)
    } else {
        match ts[i] {
            TokenView::Number(n) => (Ok(ExprV::NumLiteral(n)), 1nat),
            TokenView::Identifier(name) => if i + 1 < ts.len() && ts[i + 1]
                == TokenView::OpenParen {
                match parse_args_spec(ts, i + 2) {
                    (Ok(args), n) => (Ok(ExprV::Call(name, args)), (2 + n) as nat),
                    (Err(e), _) => (Err(e), 0nat),
                }
            } else {
                (Ok(ExprV::Variable(name)), 1nat)
            },
            TokenView::OpenParen => match parse_expression_spec(ts, i + 1) {
                (Ok(e), n) => {
                    let j = i + 1 + n;
                    if j < ts.len() {
                        match ts[j] {
                            TokenView::CloseParen => (Ok(e), (n + 2) as nat),
                            t => (Err(ErrorView::UnexpectedToken(t)), 0nat),
                        }
                    } else {
                        (Err(ErrorView::UnexpectedEof), 0nat)
                    }
                },
                (Err(e), _) => (Err(e), 0nat),
            },
            t => (Err(ErrorView::UnexpectedToken(t)), 0nat),
        }
    }
}

/// A call's argument list, from just past the opening parenthesis to its
/// closing one.
pub open spec fn parse_args_spec(ts: Seq<TokenView>, i: int) -> (
    Result<Seq<ExprV>, ErrorView>,
    nat,
)
    decreases ts.len() - i, 7nat
        when 0 <= i <= ts.len()
{
    if i >= ts.len() {
        (Err(ErrorView::UnexpectedEof), 0nat)
    } else if ts[i] == TokenView::CloseParen {
        (Ok(Seq::empty()), 1nat)
    } else {
        match parse_expression_spec(ts, i) {
            (Ok(e), n) => {
                let j = i + n;
                if j < ts.len() && ts[j] == TokenView::Comma {
                    match parse_args_spec(ts, j + 1) {
                        (Ok(rest), m) => (Ok(seq![e] + rest), (n + 1 + m) as nat),
                        (Err(er), _) => (Err(er), 0nat),
                    }
                } else if j < ts.len() && ts[j] == TokenView::CloseParen {
                    (Ok(seq![e]), (n + 1) as nat)
                } else if j < ts.len() {
                    (Err(ErrorView::UnexpectedToken(ts[j])), 0nat)
                } else {
                    (Err(ErrorView::UnexpectedEof), 0nat)
                }
            },
            (Err(e), _) => (Err(e), 0nat),
        }
    }
}

/// A unary expression; the language has no prefix operators yet.
pub open spec fn parse_unary_spec(ts: Seq<TokenView>, i: int) -> (Result<ExprV, ErrorView>, nat)
    decreases ts.len() - i, 1nat
        when 0 <= i <= ts.len()
{
    parse_primary_spec(ts, i)
}

/// The left-associative chain of multiplications, divisions and
/// remainders continuing an already-parsed operand.
pub open spec fn parse_multiplicative_chain(ts: Seq<TokenView>, j: int, acc: ExprV) -> (
    Result<ExprV, ErrorView>,
    nat,
)
    decreases ts.len() - j, 2nat
        when 0 <= j <= ts.len()
{
    if j < ts.len() && (ts[j] == TokenView::Multiply || ts[j] == TokenView::Divide || ts[j]
        == TokenView::Mod) {
        match parse_unary_spec(ts, j + 1) {
            (Ok(rhs), n) => {
                let combined = if ts[j] == TokenView::Mod {
                    ExprV::Mod(Box::new(acc), Box::new(rhs))
                } else if ts[j] == TokenView::Divide {
                    ExprV::Div(Box::new(acc), Box::new(rhs))
                } else {
                    ExprV::Mul(Box::new(acc), Box::new(rhs))
                };
                if j + 1 + n >= ts.len() {
                    (Ok(combined), (1 + n) as nat)
                } else {
                    match parse_multiplicative_chain(ts, j + 1 + n, combined) {
                        (Ok(e), m) => (Ok(e), (1 + n + m) as nat),
                        (Err(e), _) => (Err(e), 0nat),
                    }
                }
            },
            (Err(e), _) => (Err(e), 0nat),
        }
    } else {
        (Ok(acc), 0nat)
    }
}

/// A chain of multiplications, divisions and remainders.
pub open spec fn parse_multiplicative_spec(ts: Seq<TokenView>, i: int) -> (
    Result<ExprV, ErrorView>,
    nat,
)
    decreases ts.len() - i, 3nat
        when 0 <= i <= ts.len()
{
    match parse_unary_spec(ts, i) {
        (Ok(e), n) => {
            if i + n >= ts.len() {
                (Ok(e), n)
            } else {
                match parse_multiplicative_chain(ts, i + n, e) {
                    (Ok(e2), m) => (Ok(e2), (n + m) as nat),
                    (Err(er), _) => (Err(er), 0nat),
                }
            }
        },
        (Err(e), _) => (Err(e), 0nat),
    }
}

/// The left-associative chain of additions and subtractions continuing an
/// already-parsed operand.
pub open spec fn parse_additive_chain(ts: Seq<TokenView>, j: int, acc: ExprV) -> (
    Result<ExprV, ErrorView>,
    nat,
)
    decreases ts.len() - j, 4nat
        when 0 <= j <= ts.len()
{
    if j < ts.len() && (ts[j] == TokenView::Add || ts[j] == TokenView::Minus) {
        match parse_multiplicative_spec(ts, j + 1) {
            (Ok(rhs), n) => {
                let combined = if ts[j] == TokenView::Add {
                    ExprV::Add(Box::new(acc), Box::new(rhs))
                } else {
                    ExprV::Sub(Box::new(acc), Box::new(rhs))
                };
                if j + 1 + n >= ts.len() {
                    (Ok(combined), (1 + n) as nat)
                } else {
                    match parse_additive_chain(ts, j + 1 + n, combined) {
                        (Ok(e), m) => (Ok(e), (1 + n + m) as nat),
                        (Err(e), _) => (Err(e), 0nat),
                    }
                }
            },
            (Err(e), _) => (Err(e), 0nat),
        }
    } else {
        (Ok(acc), 0nat)
    }
}

/// A chain of additions and subtractions.
pub open spec fn parse_additive_spec(ts: Seq<TokenView>, i: int) -> (
    Result<ExprV, ErrorView>,
    nat,
)
    decreases ts.len() - i, 5nat
        when 0 <= i <= ts.len()
{
    match parse_multiplicative_spec(ts, i) {
        (Ok(e), n) => {
            if i + n >= ts.len() {
                (Ok(e), n)
            } else {
                match parse_additive_chain(ts, i + n, e) {
                    (Ok(e2), m) => (Ok(e2), (n + m) as nat),
                    (Err(er), _) => (Err(er), 0nat),
                }
            }
        },
        (Err(e), _) => (Err(e), 0nat),
    }
}

/// One expression.
pub open spec fn parse_expression_spec(ts: Seq<TokenView>, i: int) -> (
    Result<ExprV, ErrorView>,
    nat,
)
    decreases ts.len() - i, 6nat
        when 0 <= i <= ts.len()
{
    parse_additive_spec(ts, i)
}

/// One statement: a let-binding, a return, or a bare expression; the
/// let's trailing semicolon is left for the caller.
pub open spec fn parse_statement_spec(ts: Seq<TokenView>, i: int) -> (
    Result<StmtV, ErrorView>,
    nat,
) {
    if i >= ts.len() {
        (Err(ErrorView::UnexpectedEof), 0nat)
    } else {
        match ts[i] {
            TokenView::KwLet => {
                if i + 1 >= ts.len() {
                    (Err(ErrorView::UnexpectedEof), 0nat)
                } else {
                    match ts[i + 1] {
                        TokenView::Identifier(name) => {
                            if i + 2 >= ts.len() {
                                (Err(ErrorView::UnexpectedEof), 0nat)
                            } else if ts[i + 2] != TokenView::Colon {
                                (Err(ErrorView::UnexpectedToken(ts[i + 2])), 0nat)
                            } else {
                                match parse_type_spec(ts, i + 3) {
                                    (Ok(tv), _tn) => {
                                        if i + 4 >= ts.len() {
                                            (Err(ErrorView::UnexpectedEof), 0nat)
                                        } else if ts[i + 4] != TokenView::Equals {
                                            (Err(ErrorView::UnexpectedToken(ts[i + 4])), 0nat)
                                        } else {
                                            match parse_expression_spec(ts, i + 5) {
                                                (Ok(e), n) => (
                                                    Ok(StmtV::Let(name, Some(tv), e)),
                                                    (5 + n) as nat,
                                                ),
                                                (Err(er), _) => (Err(er), 0nat),
                                            }
                                        }
                                    },
                                    (Err(er), _) => (Err(er), 0nat),
                                }
                            }
                        },
                        t => (Err(ErrorView::UnexpectedToken(t)), 0nat),
                    }
                }
            },
            TokenView::KwReturn => match parse_expression_spec(ts, i + 1) {
                (Ok(e), n) => {
                    let j = i + 1 + n;
                    if j < ts.len() && ts[j] == TokenView::Semicolon {
                        (Ok(StmtV::Return(e)), (n + 2) as nat)
                    } else if j < ts.len() {
                        (Err(ErrorView::UnexpectedToken(ts[j])), 0nat)
                    } else {
                        (Err(ErrorView::UnexpectedEof), 0nat)
                    }
                },
                (Err(er), _) => (Err(er), 0nat),
            },
            _ => match parse_expression_spec(ts, i) {
                (Ok(e), n) => {
                    let j = i + n;
                    if j < ts.len() && ts[j] == TokenView::Semicolon {
                        (Ok(StmtV::Expr(e)), (n + 1) as nat)
                    } else if j < ts.len() {
                        (Err(ErrorView::UnexpectedToken(ts[j])), 0nat)
                    } else {
                        (Err(ErrorView::UnexpectedEof), 0nat)
                    }
                },
                (Err(er), _) => (Err(er), 0nat),
            },
        }
    }
}

/// A parameter list, from just past the opening parenthesis to its
/// closing one; an exhausted stream ends the list and the caller reports
/// what is then missing.
#[verifier::opaque]
pub open spec fn parse_params_spec(ts: Seq<TokenView>, i: int) -> (
    Result<Seq<(Seq<char>, crate::typechecker::TypeV)>, ErrorView>,
    nat,
)
    decreases ts.len() - i
        when 0 <= i <= ts.len()
{
    if i >= ts.len() {
        (Ok(Seq::empty()), 0nat)
    } else if ts[i] == TokenView::CloseParen {
        (Ok(Seq::empty()), 1nat)
    } else {
        match ts[i] {
            TokenView::Identifier(arg_name) => {
                if i + 1 >= ts.len() {
                    (Err(ErrorView::UnexpectedEof), 0nat)
                } else if ts[i + 1] != TokenView::Colon {
                    (Err(ErrorView::UnexpectedToken(ts[i + 1])), 0nat)
                } else {
                    match parse_type_spec(ts, i + 2) {
                        (Ok(tv), _tn) => {
                            let j = i + 3;
                            if j < ts.len() && ts[j] == TokenView::Comma {
                                match parse_params_spec(ts, j + 1) {
                                    (Ok(rest), m) => (
                                        Ok(seq![(arg_name, tv)] + rest),
                                        (4 + m) as nat,
                                    ),
                                    (Err(er), _) => (Err(er), 0nat),
                                }
                            } else if j < ts.len() && ts[j] == TokenView::CloseParen {
                                (Ok(seq![(arg_name, tv)]), 4nat)
                            } else if j < ts.len() {
                                (Err(ErrorView::UnexpectedToken(ts[j])), 0nat)
                            } else {
                                (Err(ErrorView::UnexpectedEof), 0nat)
                            }
                        },
                        (Err(er), _) => (Err(er), 0nat),
                    }
                }
            },
            t => (Err(ErrorView::UnexpectedToken(t)), 0nat),
        }
    }
}

/// A function body, from just past the opening brace to its closing one.
pub open spec fn parse_body_spec(ts: Seq<TokenView>, i: int) -> (
    Result<Seq<StmtV>, ErrorView>,
    nat,
)
    decreases ts.len() - i
        when 0 <= i <= ts.len()
{
    if i >= ts.len() {
        (Err(ErrorView::UnexpectedEof), 0nat)
    } else if ts[i] == TokenView::CloseBrace {
        (Ok(Seq::empty()), 1nat)
    } else {
        match parse_statement_spec(ts, i) {
            (Ok(st), n) => {
                let j = i + n;
                if j < ts.len() && ts[j] == TokenView::CloseBrace {
                    (Ok(seq![st]), (n + 1) as nat)
                } else if j < ts.len() && ts[j] == TokenView::Semicolon {
                    match parse_body_spec(ts, j + 1) {
                        (Ok(rest), m) => (Ok(seq![st] + rest), (n + 1 + m) as nat),
                        (Err(er), _) => (Err(er), 0nat),
                    }
                } else if j < ts.len() {
                    (Err(ErrorView::UnexpectedToken(ts[j])), 0nat)
                } else {
                    (Err(ErrorView::UnexpectedEof), 0nat)
                }
            },
            (Err(er), _) => (Err(er), 0nat),
        }
    }
}

/// One declaration, from just past its `fn` keyword.
pub open spec fn parse_decl_spec(ts: Seq<TokenView>, i: int) -> (Result<DeclV, ErrorView>, nat) {
    if i >= ts.len() {
        (Err(ErrorView::UnexpectedEof), 0nat)
    } else {
        match ts[i] {
            TokenView::Identifier(name) => {
                if i + 1 >= ts.len() {
                    (Err(ErrorView::UnexpectedEof), 0nat)
                } else if ts[i + 1] != TokenView::OpenParen {
                    (Err(ErrorView::UnexpectedToken(ts[i + 1])), 0nat)
                } else {
                    match parse_params_spec(ts, i + 2) {
                        (Ok(params), pn) => {
                            let j = i + 2 + pn;
                            if j >= ts.len() {
                                (Err(ErrorView::UnexpectedEof), 0nat)
                            } else if ts[j] != TokenView::Colon {
                                (Err(ErrorView::UnexpectedToken(ts[j])), 0nat)
                            } else {
                                match parse_type_spec(ts, j + 1) {
                                    (Ok(ret), _tn) => {
                                        if j + 2 >= ts.len() {
                                            (Err(ErrorView::UnexpectedEof), 0nat)
                                        } else if ts[j + 2] != TokenView::OpenBrace {
                                            (Err(ErrorView::UnexpectedToken(ts[j + 2])), 0nat)
                                        } else {
                                            match parse_body_spec(ts, j + 3) {
                                                (Ok(body), bn) => (
                                                    Ok(DeclV {
                                                        name,
                                                        arguments: params,
                                                        return_type: ret,
                                                        body,
                                                    }),
                                                    (pn + 5 + bn) as nat,
                                                ),
                                                (Err(er), _) => (Err(er), 0nat),
                                            }
                                        }
                                    },
                                    (Err(er), _) => (Err(er), 0nat),
                                }
                            }
                        },
                        (Err(er), _) => (Err(er), 0nat),
                    }
                }
            },
            t => (Err(ErrorView::UnexpectedToken(t)), 0nat),
        }
    }
}

/// A whole source file: declarations until the stream ends.
pub open spec fn parse_decls_spec(ts: Seq<TokenView>, i: int) -> (
    Result<Seq<DeclV>, ErrorView>,
    nat,
)
    decreases ts.len() - i
        when 0 <= i <= ts.len()
{
    if i >= ts.len() {
        (Ok(Seq::empty()), 0nat)
    } else {
        match ts[i] {
            TokenView::KwFn => match parse_decl_spec(ts, i + 1) {
                (Ok(d), n) => {
                    if i + 1 + n >= ts.len() {
                        (Ok(seq![d]), (1 + n) as nat)
                    } else {
                        match parse_decls_spec(ts, i + 1 + n) {
                            (Ok(rest), m) => (Ok(seq![d] + rest), (1 + n + m) as nat),
                            (Err(er), _) => (Err(er), 0nat),
                        }
                    }
                },
                (Err(er), _) => (Err(er), 0nat),
            },
            t => (Err(ErrorView::UnexpectedToken(t)), 0nat),
        }
    }
}

/// What parsing a whole token stream yields: the parser's behaviour as
/// mathematics.
pub open spec fn parse_spec(ts: Seq<TokenView>) -> Result<Seq<DeclV>, ErrorView> {
    parse_decls_spec(ts, 0).0
}

/// A token stream with lookahead, read once from front to back.
struct Peekable2 {
    tokens: Vec<Token>,
    pos: usize,
}

impl Peekable2 {
    /// The cursor never passes the end of the stream.
    spec fn wf(&self) -> bool {
        self.pos <= self.tokens@.len()
    }

    /// How many tokens are left to read.
    spec fn remaining(&self) -> int {
        self.tokens@.len() - self.pos
    }

    /// The stream as token views.
    spec fn views(&self) -> Seq<TokenView> {
        self.tokens@.map_values(|t: Token| t@)
    }

    fn new(tokens: Vec<Token>) -> (r: Self)
        ensures
            r.wf(),
            r.tokens == tokens,
            r.pos == 0,
    {
        Self { tokens, pos: 0 }
    }

    /// Read and consume the next token: exactly the underlying token at
    /// the cursor, in order, until the stream is exhausted.
    fn next(&mut self) -> (r: Option<Token>)
        requires
            old(self).wf(),
        ensures
            final(self).wf(),
            final(self).tokens == old(self).tokens,
            r matches Some(t) ==> old(self).remaining() > 0
                && final(self).pos == old(self).pos + 1
                && t == old(self).tokens@[old(self).pos as int],
            r is None ==> old(self).remaining() == 0 && final(self).pos == old(self).pos,
    {
        if self.pos < self.tokens.len() {
            let t = self.tokens[self.pos].clone();
            self.pos = self.pos + 1;
            Some(t)
        } else {
            None
        }
    }

    /// Look at the next token without consuming it.
    fn first(&self) -> (r: Option<&Token>)
        requires
            self.wf(),
        ensures
            r is Some <==> self.remaining() > 0,
            r matches Some(t) ==> *t == self.tokens@[self.pos as int],
    {
        if self.pos < self.tokens.len() {
            Some(&self.tokens[self.pos])
        } else {
            None
        }
    }

    /// Look one token past the next without consuming anything.
    fn second(&self) -> (r: Option<&Token>)
        requires
            self.wf(),
        ensures
            r is Some <==> self.remaining() > 1,
            r matches Some(t) ==> *t == self.tokens@[self.pos as int + 1],
    {
        if self.tokens.len() - self.pos >= 2 {
            Some(&self.tokens[self.pos + 1])
        } else {
            None
        }
    }

    /// Consume the next token only if it satisfies the predicate: the
    /// head comes back consumed exactly when the predicate can hold of
    /// it; an unsatisfied or missing head is left in place.
    fn next_if<F: Fn(&Token) -> bool>(&mut self, predicate: F) -> (r: Option<Token>)
        requires
            old(self).wf(),
            forall|t: &Token| #[trigger] predicate.requires((t,)),
        ensures
            final(self).wf(),
            final(self).tokens == old(self).tokens,
            r matches Some(t) ==> old(self).remaining() > 0
                && final(self).pos == old(self).pos + 1
                && t == old(self).tokens@[old(self).pos as int]
                && predicate.ensures((&t,), true),
            r is None ==> final(self).pos == old(self).pos
                && (old(self).remaining() > 0 ==> exists|t: Token|
                    t == old(self).tokens@[old(self).pos as int]
                    && #[trigger] predicate.ensures((&t,), false)),
    {
        let take = match self.first() {
            Some(t) => predicate(t),
            None => false,
        };
        if take {
            self.next()
        } else {
            None
        }
    }
}

/// Parse one type name, exactly as [`parse_type_spec`] describes.
fn parse_type(tokens: &mut Peekable2) -> (r: Result<Type, Error>)
    requires
        old(tokens).wf(),
    ensures
        final(tokens).wf(),
        final(tokens).tokens == old(tokens).tokens,
        final(tokens).pos >= old(tokens).pos,
        r is Ok ==> final(tokens).pos > old(tokens).pos,
        r matches Ok(t) ==> parse_type_spec(old(tokens).views(), old(tokens).pos as int) == (
            Ok::<crate::typechecker::TypeV, ErrorView>(crate::typechecker::type_view(t)),
            (final(tokens).pos - old(tokens).pos) as nat,
        ),
        r matches Err(e) ==> parse_type_spec(old(tokens).views(), old(tokens).pos as int).0
            == Err::<crate::typechecker::TypeV, ErrorView>(e@),
{
    match tokens.next() {
        Some(Token::Identifier(s)) => {
            if s == "u32".to_owned() {
                Ok(Type::U32)
            } else {
                Err(Error::UnexpectedToken(Token::Identifier(s)))
            }
        },
        Some(t) => Err(Error::UnexpectedToken(t)),
        None => Err(Error::UnexpectedEof),
    }
}

/// Parse one expression, exactly as [`parse_expression_spec`] describes.
fn parse_expression(tokens: &mut Peekable2) -> (r: Result<Expression, Error>)
    requires
        old(tokens).wf(),
    ensures
        final(tokens).wf(),
        final(tokens).tokens == old(tokens).tokens,
        final(tokens).pos >= old(tokens).pos,
        r is Ok ==> final(tokens).pos > old(tokens).pos,
        r matches Ok(e) ==> parse_expression_spec(old(tokens).views(), old(tokens).pos as int)
            == (
            Ok::<ExprV, ErrorView>(expr_view(e)),
            (final(tokens).pos - old(tokens).pos) as nat,
        ),
        r matches Err(e) ==> parse_expression_spec(
            old(tokens).views(),
            old(tokens).pos as int,
        ).0 == Err::<ExprV, ErrorView>(e@),
    decreases old(tokens).remaining(), 6int,
{
    parse_additive(tokens)
}

/// Parse a chain of additions and subtractions, left associative, exactly
/// as [`parse_additive_spec`] describes.
fn parse_additive(tokens: &mut Peekable2) -> (r: Result<Expression, Error>)
    requires
        old(tokens).wf(),
    ensures
        final(tokens).wf(),
        final(tokens).tokens == old(tokens).tokens,
        final(tokens).pos >= old(tokens).pos,
        r is Ok ==> final(tokens).pos > old(tokens).pos,
        r matches Ok(e) ==> parse_additive_spec(old(tokens).views(), old(tokens).pos as int) == (
            Ok::<ExprV, ErrorView>(expr_view(e)),
            (final(tokens).pos - old(tokens).pos) as nat,
        ),
        r matches Err(e) ==> parse_additive_spec(old(tokens).views(), old(tokens).pos as int).0
            == Err::<ExprV, ErrorView>(e@),
    decreases old(tokens).remaining(), 5int,
{
    let ghost toks = old(tokens).views();
    let ghost p0 = old(tokens).pos as int;
    let mut expression = match parse_multiplicative(tokens) {
        Ok(e) => e,
        Err(e) => {
            return Err(e);
        },
    };
    proof {
        if tokens.pos as int == toks.len() {
            assert(parse_additive_chain(toks, tokens.pos as int, expr_view(expression)) == (
                Ok::<ExprV, ErrorView>(expr_view(expression)),
                0nat,
            ));
        }
    }
    loop
        invariant
            tokens.wf(),
            tokens.tokens == old(tokens).tokens,
            toks == old(tokens).views(),
            p0 == old(tokens).pos,
            tokens.pos > old(tokens).pos,
            match parse_additive_chain(toks, tokens.pos as int, expr_view(expression)) {
                (Ok(e), m) => parse_additive_spec(toks, p0) == (
                    Ok::<ExprV, ErrorView>(e),
                    ((tokens.pos - p0) + m) as nat,
                ),
                (Err(e), _) => parse_additive_spec(toks, p0).0 == Err::<ExprV, ErrorView>(e),
            },
        ensures
            tokens.wf(),
            tokens.tokens == old(tokens).tokens,
            tokens.pos > old(tokens).pos,
            parse_additive_spec(toks, p0) == (
                Ok::<ExprV, ErrorView>(expr_view(expression)),
                (tokens.pos - p0) as nat,
            ),
        decreases tokens.remaining(),
    {
        let ghost it_pos = tokens.pos as int;
        let ghost it_acc = expr_view(expression);
        let is_add = match tokens.first() {
            Some(Token::Add) => true,
            _ => false,
        };
        let is_minus = match tokens.first() {
            Some(Token::Minus) => true,
            _ => false,
        };
        if !(is_add || is_minus) {
            proof {
                assert(parse_additive_chain(toks, it_pos, it_acc) == (
                    Ok::<ExprV, ErrorView>(it_acc),
                    0nat,
                ));
            }
            break;
        }
        tokens.next();
        let next_expression = match parse_multiplicative(tokens) {
            Ok(e) => e,
            Err(e) => {
                proof {
                    assert(parse_additive_chain(toks, it_pos, it_acc).0
                        == Err::<ExprV, ErrorView>(e@));
                }
                return Err(e);
            },
        };
        {
                expression = if is_add {
                    Expression::Add(Box::new(expression), Box::new(next_expression))
                } else {
                    Expression::Sub(Box::new(expression), Box::new(next_expression))
                };
                proof {
                    assert(match parse_additive_chain(toks, tokens.pos as int, expr_view(expression)) {
                        (Ok(e), m) => parse_additive_chain(toks, it_pos, it_acc) == (
                            Ok::<ExprV, ErrorView>(e),
                            ((tokens.pos - it_pos) + m) as nat,
                        ),
                        (Err(e), _) => parse_additive_chain(toks, it_pos, it_acc).0
                            == Err::<ExprV, ErrorView>(e),
                    });
                }
        }
    }
    Ok(expression)
}

/// Parse a chain of multiplications, divisions and remainders, exactly as
/// [`parse_multiplicative_spec`] describes.
fn parse_multiplicative(tokens: &mut Peekable2) -> (r: Result<Expression, Error>)
    requires
        old(tokens).wf(),
    ensures
        final(tokens).wf(),
        final(tokens).tokens == old(tokens).tokens,
        final(tokens).pos >= old(tokens).pos,
        r is Ok ==> final(tokens).pos > old(tokens).pos,
        r matches Ok(e) ==> parse_multiplicative_spec(old(tokens).views(), old(tokens).pos as int)
            == (
            Ok::<ExprV, ErrorView>(expr_view(e)),
            (final(tokens).pos - old(tokens).pos) as nat,
        ),
        r matches Err(e) ==> parse_multiplicative_spec(
            old(tokens).views(),
            old(tokens).pos as int,
        ).0 == Err::<ExprV, ErrorView>(e@),
    decreases old(tokens).remaining(), 3int,
{
    let ghost toks = old(tokens).views();
    let ghost p0 = old(tokens).pos as int;
    let mut expression = match parse_unary(tokens) {
        Ok(e) => e,
        Err(e) => {
            return Err(e);
        },
    };
    proof {
        if tokens.pos as int == toks.len() {
            assert(parse_multiplicative_chain(toks, tokens.pos as int, expr_view(expression))
                == (Ok::<ExprV, ErrorView>(expr_view(expression)), 0nat));
        }
    }
    loop
        invariant
            tokens.wf(),
            tokens.tokens == old(tokens).tokens,
            toks == old(tokens).views(),
            p0 == old(tokens).pos,
            tokens.pos > old(tokens).pos,
            match parse_multiplicative_chain(toks, tokens.pos as int, expr_view(expression)) {
                (Ok(e), m) => parse_multiplicative_spec(toks, p0) == (
                    Ok::<ExprV, ErrorView>(e),
                    ((tokens.pos - p0) + m) as nat,
                ),
                (Err(e), _) => parse_multiplicative_spec(toks, p0).0
                    == Err::<ExprV, ErrorView>(e),
            },
        ensures
            tokens.wf(),
            tokens.tokens == old(tokens).tokens,
            tokens.pos > old(tokens).pos,
            parse_multiplicative_spec(toks, p0) == (
                Ok::<ExprV, ErrorView>(expr_view(expression)),
                (tokens.pos - p0) as nat,
            ),
        decreases tokens.remaining(),
    {
        let ghost it_pos = tokens.pos as int;
        let ghost it_acc = expr_view(expression);
        let is_mul = match tokens.first() {
            Some(Token::Multiply) => true,
            _ => false,
        };
        let is_div = match tokens.first() {
            Some(Token::Divide) => true,
            _ => false,
        };
        let is_mod = match tokens.first() {
            Some(Token::Mod) => true,
            _ => false,
        };
        if !(is_mul || is_div || is_mod) {
            proof {
                assert(parse_multiplicative_chain(toks, it_pos, it_acc) == (
                    Ok::<ExprV, ErrorView>(it_acc),
                    0nat,
                ));
            }
            break;
        }
        tokens.next();
        let next_expression = match parse_unary(tokens) {
            Ok(e) => e,
            Err(e) => {
                proof {
                    assert(parse_multiplicative_chain(toks, it_pos, it_acc).0
                        == Err::<ExprV, ErrorView>(e@));
                }
                return Err(e);
            },
        };
        {
                expression = if is_mod {
                    Expression::Mod(Box::new(expression), Box::new(next_expression))
                } else if is_div {
                    Expression::Div(Box::new(expression), Box::new(next_expression))
                } else {
                    Expression::Mul(Box::new(expression), Box::new(next_expression))
                };
                proof {
                    assert(match parse_multiplicative_chain(
                        toks,
                        tokens.pos as int,
                        expr_view(expression),
                    ) {
                        (Ok(e), m) => parse_multiplicative_chain(toks, it_pos, it_acc) == (
                            Ok::<ExprV, ErrorView>(e),
                            ((tokens.pos - it_pos) + m) as nat,
                        ),
                        (Err(e), _) => parse_multiplicative_chain(toks, it_pos, it_acc).0
                            == Err::<ExprV, ErrorView>(e),
                    });
                }
        }
    }
    Ok(expression)
}

/// Parse a unary expression; the language has no prefix operators yet.
fn parse_unary(tokens: &mut Peekable2) -> (r: Result<Expression, Error>)
    requires
        old(tokens).wf(),
    ensures
        final(tokens).wf(),
        final(tokens).tokens == old(tokens).tokens,
        final(tokens).pos >= old(tokens).pos,
        r is Ok ==> final(tokens).pos > old(tokens).pos,
        r matches Ok(e) ==> parse_unary_spec(old(tokens).views(), old(tokens).pos as int) == (
            Ok::<ExprV, ErrorView>(expr_view(e)),
            (final(tokens).pos - old(tokens).pos) as nat,
        ),
        r matches Err(e) ==> parse_unary_spec(old(tokens).views(), old(tokens).pos as int).0
            == Err::<ExprV, ErrorView>(e@),
    decreases old(tokens).remaining(), 1int,
{
    parse_primary(tokens)
}

/// Parse a literal, a variable, a call, or a parenthesised expression,
/// exactly as [`parse_primary_spec`] describes.
#[verifier::rlimit(100)]
fn parse_primary(tokens: &mut Peekable2) -> (r: Result<Expression, Error>)
    requires
        old(tokens).wf(),
    ensures
        final(tokens).wf(),
        final(tokens).tokens == old(tokens).tokens,
        final(tokens).pos >= old(tokens).pos,
        r is Ok ==> final(tokens).pos > old(tokens).pos,
        r matches Ok(e) ==> parse_primary_spec(old(tokens).views(), old(tokens).pos as int) == (
            Ok::<ExprV, ErrorView>(expr_view(e)),
            (final(tokens).pos - old(tokens).pos) as nat,
        ),
        r matches Err(e) ==> parse_primary_spec(old(tokens).views(), old(tokens).pos as int).0
            == Err::<ExprV, ErrorView>(e@),
    decreases old(tokens).remaining(), 0int,
{
    let ghost toks = old(tokens).views();
    let ghost p0 = old(tokens).pos as int;
    match tokens.next() {
        Some(Token::Number(n)) => Ok(Expression::NumLiteral(n)),
        Some(Token::Identifier(name)) => {
            let call_follows = match tokens.first() {
                Some(Token::OpenParen) => true,
                _ => false,
            };
            if call_follows {
                tokens.next();
                let ghost args_p0 = tokens.pos as int;
                let mut args: Vec<Expression> = Vec::new();
                proof {
                    assert(exprs_view(args@) =~= Seq::<ExprV>::empty());
                    match parse_args_spec(toks, args_p0) {
                        (Ok(rest), m) => {
                            assert(Seq::<ExprV>::empty() + rest =~= rest);
                        },
                        (Err(er), _) => {},
                    }
                }
                loop
                    invariant_except_break
                        match parse_args_spec(toks, tokens.pos as int) {
                            (Ok(rest), m) => parse_args_spec(toks, args_p0) == (
                                Ok::<Seq<ExprV>, ErrorView>(exprs_view(args@) + rest),
                                ((tokens.pos - args_p0) + m) as nat,
                            ),
                            (Err(e), _) => parse_args_spec(toks, args_p0).0
                                == Err::<Seq<ExprV>, ErrorView>(e),
                        },
                    invariant
                        tokens.wf(),
                        tokens.tokens == old(tokens).tokens,
                        toks == old(tokens).views(),
                        p0 == old(tokens).pos,
                        0 <= p0,
                        args_p0 == p0 + 2,
                        tokens.pos >= args_p0,
                        p0 + 1 < toks.len(),
                        toks[p0] == TokenView::Identifier(name@),
                        toks[p0 + 1] == TokenView::OpenParen,
                    ensures
                        tokens.wf(),
                        tokens.tokens == old(tokens).tokens,
                        tokens.pos > args_p0,
                        parse_args_spec(toks, args_p0) == (
                            Ok::<Seq<ExprV>, ErrorView>(exprs_view(args@)),
                            (tokens.pos - args_p0) as nat,
                        ),
                    decreases tokens.remaining(),
                {
                    let ghost it_pos = tokens.pos as int;
                    let ghost it_args = exprs_view(args@);
                    let at_end = match tokens.first() {
                        Some(Token::CloseParen) => true,
                        _ => false,
                    };
                    if at_end {
                        tokens.next();
                        proof {
                            assert(parse_args_spec(toks, it_pos) == (
                                Ok::<Seq<ExprV>, ErrorView>(Seq::empty()),
                                1nat,
                            ));
                            assert(it_args + Seq::<ExprV>::empty() =~= it_args);
                        }
                        break;
                    }
                    let e = match parse_expression(tokens) {
                        Ok(e) => e,
                        Err(e) => {
                            proof {
                                assert(parse_args_spec(toks, it_pos).0
                                    == Err::<Seq<ExprV>, ErrorView>(e@));
                            }
                            return Err(e);
                        },
                    };
                    let ghost e_view = expr_view(e);
                    let ghost pre_args = args@;
                    args.push(e);
                    proof {
                        assert(args@.drop_last() =~= pre_args);
                        assert(args@.last() == args@[args@.len() - 1]);
                        assert(exprs_view(args@) =~= it_args.push(e_view));
                    }
                    let got_comma = match tokens.first() {
                        Some(Token::Comma) => true,
                        _ => false,
                    };
                    if got_comma {
                        tokens.next();
                    }
                    let at_close = match tokens.first() {
                        Some(Token::CloseParen) => true,
                        _ => false,
                    };
                    if !(got_comma || at_close) {
                        match tokens.next() {
                            Some(t) => {
                                proof {
                                    assert(parse_args_spec(toks, it_pos).0
                                        == Err::<Seq<ExprV>, ErrorView>(
                                        ErrorView::UnexpectedToken(t@),
                                    ));
                                }
                                return Err(Error::UnexpectedToken(t));
                            },
                            None => {
                                proof {
                                    assert(parse_args_spec(toks, it_pos).0
                                        == Err::<Seq<ExprV>, ErrorView>(ErrorView::UnexpectedEof));
                                }
                                return Err(Error::UnexpectedEof);
                            },
                        }
                    }
                    proof {
                        match parse_args_spec(toks, tokens.pos as int) {
                            (Ok(rest1), m1) => {
                                assert(parse_args_spec(toks, it_pos) == (
                                    Ok::<Seq<ExprV>, ErrorView>(seq![e_view] + rest1),
                                    ((tokens.pos - it_pos) + m1) as nat,
                                ));
                                assert(it_args + (seq![e_view] + rest1)
                                    =~= it_args.push(e_view) + rest1);
                            },
                            (Err(er), _) => {
                                assert(parse_args_spec(toks, it_pos).0
                                    == Err::<Seq<ExprV>, ErrorView>(er));
                            },
                        }
                    }
                }
                let ghost result_view = ExprV::Call(name@, exprs_view(args@));
                proof {
                    assert(parse_primary_spec(toks, p0) == (
                        Ok::<ExprV, ErrorView>(result_view),
                        ((tokens.pos - p0)) as nat,
                    ));
                }
                Ok(Expression::Call(name, args))
            } else {
                Ok(Expression::Variable(name))
            }
        },
        Some(Token::OpenParen) => {
            let expression = match parse_expression(tokens) {
                Ok(e) => e,
                Err(e) => {
                    return Err(e);
                },
            };
            match tokens.next() {
                Some(Token::CloseParen) => Ok(expression),
                Some(t) => Err(Error::UnexpectedToken(t)),
                None => Err(Error::UnexpectedEof),
            }
        },
        Some(t) => Err(Error::UnexpectedToken(t)),
        None => Err(Error::UnexpectedEof),
    }
}

/// Parse one statement, exactly as [`parse_statement_spec`] describes.
#[verifier::rlimit(100)]
fn parse_statement(tokens: &mut Peekable2) -> (r: Result<Statement, Error>)
    requires
        old(tokens).wf(),
    ensures
        final(tokens).wf(),
        final(tokens).tokens == old(tokens).tokens,
        final(tokens).pos >= old(tokens).pos,
        r is Ok ==> final(tokens).pos > old(tokens).pos,
        r matches Ok(st) ==> parse_statement_spec(old(tokens).views(), old(tokens).pos as int)
            == (
            Ok::<StmtV, ErrorView>(stmt_view(st)),
            (final(tokens).pos - old(tokens).pos) as nat,
        ),
        r matches Err(e) ==> parse_statement_spec(
            old(tokens).views(),
            old(tokens).pos as int,
        ).0 == Err::<StmtV, ErrorView>(e@),
{
    let ghost toks = old(tokens).views();
    let ghost p0 = old(tokens).pos as int;
    let kind: u8 = match tokens.first() {
        None => {
            return Err(Error::UnexpectedEof);
        },
        Some(Token::KwLet) => 0,
        Some(Token::KwReturn) => 1,
        Some(_) => 2,
    };
    if kind == 0 {
        tokens.next();
        let name = match tokens.next() {
            Some(Token::Identifier(name)) => name,
            Some(t) => {
                return Err(Error::UnexpectedToken(t));
            },
            None => {
                return Err(Error::UnexpectedEof);
            },
        };
        match tokens.next() {
            Some(Token::Colon) => {},
            Some(t) => {
                return Err(Error::UnexpectedToken(t));
            },
            None => {
                return Err(Error::UnexpectedEof);
            },
        }
        let value_type = match parse_type(tokens) {
            Ok(t) => t,
            Err(e) => {
                return Err(e);
            },
        };
        match tokens.next() {
            Some(Token::Equals) => {},
            Some(t) => {
                return Err(Error::UnexpectedToken(t));
            },
            None => {
                return Err(Error::UnexpectedEof);
            },
        }
        let value = match parse_expression(tokens) {
            Ok(e) => e,
            Err(e) => {
                return Err(e);
            },
        };
        Ok(Statement::Let(name, Some(value_type), value))
    } else if kind == 1 {
        tokens.next();
        let expression = match parse_expression(tokens) {
            Ok(e) => e,
            Err(e) => {
                return Err(e);
            },
        };
        match tokens.next() {
            Some(Token::Semicolon) => {},
            Some(t) => {
                return Err(Error::UnexpectedToken(t));
            },
            None => {
                return Err(Error::UnexpectedEof);
            },
        }
        Ok(Statement::Return(expression))
    } else {
        let expression = match parse_expression(tokens) {
            Ok(e) => e,
            Err(e) => {
                return Err(e);
            },
        };
        match tokens.next() {
            Some(Token::Semicolon) => {},
            Some(t) => {
                return Err(Error::UnexpectedToken(t));
            },
            None => {
                return Err(Error::UnexpectedEof);
            },
        }
        Ok(Statement::Expr(expression))
    }
}

/// The error a parameter's colon-type-separator tail yields from
/// position `q` (just past the parameter's name), case by case.
pub open spec fn params_tail_err(ts: Seq<TokenView>, q: int, ev: ErrorView) -> bool {
    ||| (q >= ts.len() && ev == ErrorView::UnexpectedEof)
    ||| (q < ts.len() && ts[q] != TokenView::Colon && ev == ErrorView::UnexpectedToken(ts[q]))
    ||| (q < ts.len() && ts[q] == TokenView::Colon && parse_type_spec(ts, q + 1).0
        == Err::<crate::typechecker::TypeV, ErrorView>(ev))
    ||| (q < ts.len() && ts[q] == TokenView::Colon && parse_type_spec(ts, q + 1).0 is Ok && q + 2
        >= ts.len() && ev == ErrorView::UnexpectedEof)
    ||| (q < ts.len() && ts[q] == TokenView::Colon && parse_type_spec(ts, q + 1).0 is Ok && q + 2
        < ts.len() && ts[q + 2] != TokenView::Comma && ts[q + 2] != TokenView::CloseParen && ev
        == ErrorView::UnexpectedToken(ts[q + 2]))
}

/// A failing parameter tail fails the whole list parse with its error.
proof fn lemma_params_element_err(toks: Seq<TokenView>, pit: int, nv: Seq<char>, ev: ErrorView)
    requires
        0 <= pit < toks.len(),
        toks[pit] == TokenView::Identifier(nv),
        params_tail_err(toks, pit + 1, ev),
    ensures
        parse_params_spec(toks, pit).0 == Err::<
            Seq<(Seq<char>, crate::typechecker::TypeV)>,
            ErrorView,
        >(ev),
{
    reveal(parse_params_spec);
}

/// Parse one parameter's colon, type, and separator, from just past the
/// parameter's name: a comma is consumed, a closing parenthesis is left
/// for the caller, and anything else is that position's error.
fn parse_parameter_tail(tokens: &mut Peekable2) -> (r: Result<Type, Error>)
    requires
        old(tokens).wf(),
    ensures
        final(tokens).wf(),
        final(tokens).tokens == old(tokens).tokens,
        final(tokens).pos >= old(tokens).pos,
        r matches Ok(ty) ==> {
            let ts = old(tokens).views();
            let q = old(tokens).pos as int;
            &&& q < ts.len() && ts[q] == TokenView::Colon
            &&& parse_type_spec(ts, q + 1) == (
                Ok::<crate::typechecker::TypeV, ErrorView>(crate::typechecker::type_view(ty)),
                1nat,
            )
            &&& ((final(tokens).pos == q + 3 && q + 2 < ts.len() && ts[q + 2]
                == TokenView::Comma) || (final(tokens).pos == q + 2 && q + 2 < ts.len() && ts[q
                + 2] == TokenView::CloseParen))
        },
        r matches Err(e) ==> params_tail_err(
            old(tokens).views(),
            old(tokens).pos as int,
            e@,
        ),
{
    match tokens.next() {
        Some(Token::Colon) => {},
        Some(t) => {
            return Err(Error::UnexpectedToken(t));
        },
        None => {
            return Err(Error::UnexpectedEof);
        },
    }
    let arg_type = match parse_type(tokens) {
        Ok(t) => t,
        Err(e) => {
            return Err(e);
        },
    };
    let got_comma = match tokens.first() {
        Some(Token::Comma) => true,
        _ => false,
    };
    if got_comma {
        tokens.next();
    }
    let at_close = match tokens.first() {
        Some(Token::CloseParen) => true,
        _ => false,
    };
    if !(got_comma || at_close) {
        match tokens.next() {
            Some(t) => {
                return Err(Error::UnexpectedToken(t));
            },
            None => {
                return Err(Error::UnexpectedEof);
            },
        }
    }
    Ok(arg_type)
}

/// One parsed parameter composes with the rest of the list: from an
/// identifier, colon, type and a comma (consumed) or the closing
/// parenthesis (left in place), the list parse is the parameter followed
/// by whatever the continuation position yields.
proof fn lemma_params_element_step(
    toks: Seq<TokenView>,
    pit: int,
    nv: Seq<char>,
    tv: crate::typechecker::TypeV,
    endp: int,
)
    requires
        0 <= pit,
        pit + 1 < toks.len(),
        toks[pit] == TokenView::Identifier(nv),
        toks[pit + 1] == TokenView::Colon,
        parse_type_spec(toks, pit + 2) == (Ok::<crate::typechecker::TypeV, ErrorView>(tv), 1nat),
        (endp == pit + 4 && pit + 3 < toks.len() && toks[pit + 3] == TokenView::Comma) || (endp
            == pit + 3 && pit + 3 < toks.len() && toks[pit + 3] == TokenView::CloseParen),
    ensures
        match parse_params_spec(toks, endp) {
            (Ok(rest), m) => parse_params_spec(toks, pit) == (
                Ok::<Seq<(Seq<char>, crate::typechecker::TypeV)>, ErrorView>(
                    seq![(nv, tv)] + rest,
                ),
                ((endp - pit) + m) as nat,
            ),
            (Err(e), _) => parse_params_spec(toks, pit).0
                == Err::<Seq<(Seq<char>, crate::typechecker::TypeV)>, ErrorView>(e),
        },
{
    reveal(parse_params_spec);
    if endp == pit + 3 {
        assert(parse_params_spec(toks, endp) == (
            Ok::<Seq<(Seq<char>, crate::typechecker::TypeV)>, ErrorView>(Seq::empty()),
            1nat,
        ));
        assert(parse_params_spec(toks, pit) == (
            Ok::<Seq<(Seq<char>, crate::typechecker::TypeV)>, ErrorView>(seq![(nv, tv)]),
            4nat,
        ));
        assert(seq![(nv, tv)] + Seq::<(Seq<char>, crate::typechecker::TypeV)>::empty()
            =~= seq![(nv, tv)]);
    }
}

/// An empty parameter list has the empty view.
proof fn lemma_params_view_empty(args: Seq<(String, Type)>)
    requires
        args.len() == 0,
    ensures
        params_view(args) == Seq::<(Seq<char>, crate::typechecker::TypeV)>::empty(),
{
    reveal(params_view);
    assert(params_view(args) =~= Seq::<(Seq<char>, crate::typechecker::TypeV)>::empty());
}

/// Any other token at the head of the parameter list is its error.
proof fn lemma_params_bad_head(toks: Seq<TokenView>, j: int)
    requires
        0 <= j < toks.len(),
        !(toks[j] matches TokenView::Identifier(_)),
        toks[j] != TokenView::CloseParen,
    ensures
        parse_params_spec(toks, j).0 == Err::<
            Seq<(Seq<char>, crate::typechecker::TypeV)>,
            ErrorView,
        >(ErrorView::UnexpectedToken(toks[j])),
{
    reveal(parse_params_spec);
}

/// An exhausted stream or a closing parenthesis ends the parameter list.
proof fn lemma_params_end(toks: Seq<TokenView>, j: int)
    requires
        0 <= j <= toks.len(),
        j >= toks.len() || toks[j] == TokenView::CloseParen,
    ensures
        parse_params_spec(toks, j) == (
            Ok::<Seq<(Seq<char>, crate::typechecker::TypeV)>, ErrorView>(Seq::empty()),
            if j < toks.len() {
                1nat
            } else {
                0nat
            },
        ),
{
    reveal(parse_params_spec);
}

/// A parameter at the front of the list contributes the front of its
/// view.
proof fn lemma_params_view_cons(args: Seq<(String, Type)>, a: (String, Type))
    ensures
        params_view(args.insert(0, a)) == seq![(a.0@, crate::typechecker::type_view(a.1))]
            + params_view(args),
{
    reveal(params_view);
    assert(params_view(args.insert(0, a)) =~= seq![(a.0@, crate::typechecker::type_view(a.1))]
        + params_view(args));
}

/// Parse a parameter list from just past its opening parenthesis,
/// exactly as [`parse_params_spec`] describes: one recursive call per
/// parameter, like the production itself.
fn parse_parameters(tokens: &mut Peekable2) -> (r: Result<Vec<(String, Type)>, Error>)
    requires
        old(tokens).wf(),
    ensures
        final(tokens).wf(),
        final(tokens).tokens == old(tokens).tokens,
        final(tokens).pos >= old(tokens).pos,
        r matches Ok(ps) ==> parse_params_spec(old(tokens).views(), old(tokens).pos as int) == (
            Ok::<Seq<(Seq<char>, crate::typechecker::TypeV)>, ErrorView>(params_view(ps@)),
            (final(tokens).pos - old(tokens).pos) as nat,
        ),
        r matches Err(e) ==> parse_params_spec(old(tokens).views(), old(tokens).pos as int).0
            == Err::<Seq<(Seq<char>, crate::typechecker::TypeV)>, ErrorView>(e@),
    decreases old(tokens).remaining(),
{
    let ghost toks = old(tokens).views();
    let ghost p0 = old(tokens).pos as int;
    match tokens.next() {
        None => {
            let empty: Vec<(String, Type)> = Vec::new();
            proof {
                lemma_params_end(toks, p0);
                lemma_params_view_empty(empty@);
            }
            Ok(empty)
        },
        Some(Token::CloseParen) => {
            let empty: Vec<(String, Type)> = Vec::new();
            proof {
                lemma_params_end(toks, p0);
                lemma_params_view_empty(empty@);
            }
            Ok(empty)
        },
        Some(Token::Identifier(arg_name)) => {
            let ghost nv = arg_name@;
            let arg_type = match parse_parameter_tail(tokens) {
                Ok(t) => t,
                Err(e) => {
                    proof {
                        lemma_params_element_err(toks, p0, nv, e@);
                    }
                    return Err(e);
                },
            };
            let ghost tv = crate::typechecker::type_view(arg_type);
            let ghost endp = tokens.pos as int;
            let mut rest = match parse_parameters(tokens) {
                Ok(ps) => ps,
                Err(e) => {
                    proof {
                        lemma_params_element_step(toks, p0, nv, tv, endp);
                    }
                    return Err(e);
                },
            };
            let ghost rest_before = rest@;
            rest.insert(0, (arg_name, arg_type));
            proof {
                lemma_params_element_step(toks, p0, nv, tv, endp);
                lemma_params_view_cons(rest_before, rest@[0]);
                assert(rest@ == rest_before.insert(0, rest@[0]));
            }
            Ok(rest)
        },
        Some(t) => {
            proof {
                lemma_params_bad_head(toks, p0);
            }
            Err(Error::UnexpectedToken(t))
        },
    }
}

/// Parse a function body from just past its opening brace, exactly as
/// [`parse_body_spec`] describes: one recursive call per statement, like
/// the production itself.
#[verifier::rlimit(100)]
fn parse_function_body(tokens: &mut Peekable2) -> (r: Result<Vec<Statement>, Error>)
    requires
        old(tokens).wf(),
    ensures
        final(tokens).wf(),
        final(tokens).tokens == old(tokens).tokens,
        final(tokens).pos >= old(tokens).pos,
        r matches Ok(sts) ==> parse_body_spec(old(tokens).views(), old(tokens).pos as int) == (
            Ok::<Seq<StmtV>, ErrorView>(stmts_view(sts@)),
            (final(tokens).pos - old(tokens).pos) as nat,
        ),
        r matches Err(e) ==> parse_body_spec(old(tokens).views(), old(tokens).pos as int).0
            == Err::<Seq<StmtV>, ErrorView>(e@),
    decreases old(tokens).remaining(),
{
    let ghost toks = old(tokens).views();
    let ghost p0 = old(tokens).pos as int;
    let at_end = match tokens.first() {
        Some(Token::CloseBrace) => true,
        _ => false,
    };
    if at_end {
        tokens.next();
        let empty: Vec<Statement> = Vec::new();
        proof {
            assert(stmts_view(empty@) =~= Seq::<StmtV>::empty());
            assert(parse_body_spec(toks, p0) == (
                Ok::<Seq<StmtV>, ErrorView>(Seq::empty()),
                1nat,
            ));
        }
        return Ok(empty);
    }
    let st = match parse_statement(tokens) {
        Ok(st) => st,
        Err(e) => {
            proof {
                assert(parse_body_spec(toks, p0).0 == Err::<Seq<StmtV>, ErrorView>(e@));
            }
            return Err(e);
        },
    };
    let ghost st_view = stmt_view(st);
    let ghost j = tokens.pos as int;
    let after: u8 = match tokens.first() {
        None => 0,
        Some(Token::CloseBrace) => 1,
        Some(Token::Semicolon) => 2,
        Some(_) => 3,
    };
    if after == 0 {
        proof {
            assert(parse_body_spec(toks, p0).0 == Err::<Seq<StmtV>, ErrorView>(
                ErrorView::UnexpectedEof,
            ));
        }
        return Err(Error::UnexpectedEof);
    }
    if after == 1 {
        tokens.next();
        let mut only: Vec<Statement> = Vec::new();
        only.push(st);
        proof {
            assert(stmts_view(only@) =~= seq![st_view]);
            assert(parse_body_spec(toks, p0) == (
                Ok::<Seq<StmtV>, ErrorView>(seq![st_view]),
                (tokens.pos - p0) as nat,
            ));
        }
        return Ok(only);
    }
    if after == 3 {
        match tokens.next() {
            Some(t) => {
                proof {
                    assert(parse_body_spec(toks, p0).0 == Err::<Seq<StmtV>, ErrorView>(
                        ErrorView::UnexpectedToken(t@),
                    ));
                }
                return Err(Error::UnexpectedToken(t));
            },
            None => {
                return Err(Error::UnexpectedEof);
            },
        }
    }
    tokens.next();
    let mut rest = match parse_function_body(tokens) {
        Ok(sts) => sts,
        Err(e) => {
            proof {
                assert(parse_body_spec(toks, p0).0 == Err::<Seq<StmtV>, ErrorView>(e@));
            }
            return Err(e);
        },
    };
    let ghost rest_before = rest@;
    rest.insert(0, st);
    proof {
        assert(rest@ == rest_before.insert(0, st));
        assert(stmts_view(rest@) =~= seq![st_view] + stmts_view(rest_before));
        assert(parse_body_spec(toks, p0) == (
            Ok::<Seq<StmtV>, ErrorView>(stmts_view(rest@)),
            (tokens.pos - p0) as nat,
        ));
    }
    Ok(rest)
}

/// The pieces of a declaration compose: name, parenthesised parameters,
/// colon, return type, and braced body yield the declaration, with the
/// consumed counts summing up.
proof fn lemma_decl_compose(
    toks: Seq<TokenView>,
    d0: int,
    nv: Seq<char>,
    pn: nat,
    params: Seq<(Seq<char>, crate::typechecker::TypeV)>,
    rv: crate::typechecker::TypeV,
    bn: nat,
    sts: Seq<StmtV>,
)
    requires
        0 <= d0 < toks.len(),
        toks[d0] == TokenView::Identifier(nv),
        d0 + 1 < toks.len(),
        toks[d0 + 1] == TokenView::OpenParen,
        parse_params_spec(toks, d0 + 2) == (
            Ok::<Seq<(Seq<char>, crate::typechecker::TypeV)>, ErrorView>(params),
            pn,
        ),
        d0 + 2 + pn < toks.len(),
        toks[d0 + 2 + pn] == TokenView::Colon,
        parse_type_spec(toks, d0 + 3 + pn) == (Ok::<crate::typechecker::TypeV, ErrorView>(rv), 1nat),
        d0 + 4 + pn < toks.len(),
        toks[d0 + 4 + pn] == TokenView::OpenBrace,
        parse_body_spec(toks, d0 + 5 + pn) == (Ok::<Seq<StmtV>, ErrorView>(sts), bn),
    ensures
        parse_decl_spec(toks, d0) == (
            Ok::<DeclV, ErrorView>(
                DeclV { name: nv, arguments: params, return_type: rv, body: sts },
            ),
            (pn + 5 + bn) as nat,
        ),
{
}

/// Parse one declaration from just past its `fn` keyword, exactly as
/// [`parse_decl_spec`] describes.
#[verifier::rlimit(100)]
fn parse_declaration(tokens: &mut Peekable2) -> (r: Result<Declaration, Error>)
    requires
        old(tokens).wf(),
    ensures
        final(tokens).wf(),
        final(tokens).tokens == old(tokens).tokens,
        final(tokens).pos >= old(tokens).pos,
        r matches Ok(d) ==> parse_decl_spec(old(tokens).views(), old(tokens).pos as int) == (
            Ok::<DeclV, ErrorView>(decl_view(d)),
            (final(tokens).pos - old(tokens).pos) as nat,
        ),
        r matches Err(e) ==> parse_decl_spec(old(tokens).views(), old(tokens).pos as int).0
            == Err::<DeclV, ErrorView>(e@),
{
    let ghost toks = old(tokens).views();
    let ghost d0 = old(tokens).pos as int;
    let name = match tokens.next() {
        Some(Token::Identifier(name)) => name,
        Some(t) => {
            return Err(Error::UnexpectedToken(t));
        },
        None => {
            return Err(Error::UnexpectedEof);
        },
    };
    match tokens.next() {
        Some(Token::OpenParen) => {},
        Some(t) => {
            return Err(Error::UnexpectedToken(t));
        },
        None => {
            return Err(Error::UnexpectedEof);
        },
    }
    let arguments = match parse_parameters(tokens) {
        Ok(ps) => ps,
        Err(e) => {
            return Err(e);
        },
    };
    let ghost params_end = tokens.pos as int;
    match tokens.next() {
        Some(Token::Colon) => {},
        Some(t) => {
            return Err(Error::UnexpectedToken(t));
        },
        None => {
            return Err(Error::UnexpectedEof);
        },
    }
    let return_type = match parse_type(tokens) {
        Ok(t) => t,
        Err(e) => {
            return Err(e);
        },
    };
    match tokens.next() {
        Some(Token::OpenBrace) => {},
        Some(t) => {
            return Err(Error::UnexpectedToken(t));
        },
        None => {
            return Err(Error::UnexpectedEof);
        },
    }
    let ghost body_start = tokens.pos as int;
    let body = match parse_function_body(tokens) {
        Ok(sts) => sts,
        Err(e) => {
            return Err(e);
        },
    };
    let declaration = Declaration::Function { name, arguments, return_type, body };
    proof {
        lemma_decl_compose(
            toks,
            d0,
            name@,
            (params_end - (d0 + 2)) as nat,
            params_view(arguments@),
            crate::typechecker::type_view(return_type),
            (tokens.pos - body_start) as nat,
            stmts_view(body@),
        );
        assert(decl_view(declaration) == (DeclV {
            name: name@,
            arguments: params_view(arguments@),
            return_type: crate::typechecker::type_view(return_type),
            body: stmts_view(body@),
        }));
        assert(parse_decl_spec(toks, d0) == (
            Ok::<DeclV, ErrorView>(decl_view(declaration)),
            (tokens.pos - d0) as nat,
        ));
    }
    Ok(declaration)
}

/// Parse a whole source file into its declaration list. Lexing is
/// exactly [`lex_from`] and parsing of the lexed tokens is exactly
/// [`parse_spec`]: an input that does not lex is rejected with the
/// lexer's error, and a lexable input yields exactly the declarations,
/// or exactly the error, that the grammar gives its token stream.
#[verifier::rlimit(100)]
pub fn parse(input: &str) -> (r: Result<Vec<Declaration>, Error>)
    ensures
        lex_from(input@, 0) matches Err(e) ==> r matches Err(pe) && pe@ == e,
        lex_from(input@, 0) matches Ok(lexed) ==> match r {
            Ok(ds) => parse_spec(lexed) == Ok::<Seq<DeclV>, ErrorView>(decls_view(ds@)),
            Err(pe) => parse_spec(lexed) == Err::<Seq<DeclV>, ErrorView>(pe@),
        },
        r is Ok ==> lex_from(input@, 0) is Ok,
{
    let tokens = match get_tokens(input) {
        Ok(t) => t,
        Err(e) => {
            return Err(e);
        },
    };
    let mut iter = Peekable2::new(tokens);
    let ghost toks = iter.views();
    let mut result: Vec<Declaration> = Vec::new();
    proof {
        assert(decls_view(result@) =~= Seq::<DeclV>::empty());
        match parse_decls_spec(toks, 0) {
            (Ok(rest), m) => {
                assert(Seq::<DeclV>::empty() + rest =~= rest);
            },
            (Err(er), _) => {},
        }
    }
    loop
        invariant_except_break
            match parse_decls_spec(toks, iter.pos as int) {
                (Ok(rest), m) => parse_decls_spec(toks, 0) == (
                    Ok::<Seq<DeclV>, ErrorView>(decls_view(result@) + rest),
                    (iter.pos + m) as nat,
                ),
                (Err(e), _) => parse_decls_spec(toks, 0).0 == Err::<Seq<DeclV>, ErrorView>(e),
            },
        invariant
            iter.wf(),
            toks == iter.views(),
            lex_from(input@, 0) == Ok::<Seq<TokenView>, ErrorView>(toks),
        ensures
            iter.wf(),
            lex_from(input@, 0) == Ok::<Seq<TokenView>, ErrorView>(toks),
            parse_decls_spec(toks, 0).0 == Ok::<Seq<DeclV>, ErrorView>(decls_view(result@)),
        decreases iter.remaining(),
    {
        let ghost it_pos = iter.pos as int;
        let ghost it_decls = decls_view(result@);
        match iter.next() {
            None => {
                proof {
                    assert(parse_decls_spec(toks, it_pos) == (
                        Ok::<Seq<DeclV>, ErrorView>(Seq::empty()),
                        0nat,
                    ));
                    assert(it_decls + Seq::<DeclV>::empty() =~= it_decls);
                }
                break;
            },
            Some(Token::KwFn) => {
                let declaration = match parse_declaration(&mut iter) {
                    Ok(d) => d,
                    Err(e) => {
                        proof {
                            assert(parse_decls_spec(toks, it_pos).0
                                == Err::<Seq<DeclV>, ErrorView>(e@));
                        }
                        return Err(e);
                    },
                };
                let ghost new_view = decl_view(declaration);
                result.push(declaration);
                proof {
                    assert(decls_view(result@).drop_last() =~= it_decls);
                    assert(decls_view(result@) =~= it_decls.push(new_view));
                    if iter.pos as int >= toks.len() {
                        assert(parse_decls_spec(toks, it_pos) == (
                            Ok::<Seq<DeclV>, ErrorView>(seq![new_view]),
                            (iter.pos - it_pos) as nat,
                        ));
                        assert(parse_decls_spec(toks, iter.pos as int) == (
                            Ok::<Seq<DeclV>, ErrorView>(Seq::empty()),
                            0nat,
                        ));
                    }
                    match parse_decls_spec(toks, iter.pos as int) {
                        (Ok(rest1), m1) => {
                            assert(parse_decls_spec(toks, it_pos) == (
                                Ok::<Seq<DeclV>, ErrorView>(seq![new_view] + rest1),
                                ((iter.pos - it_pos) + m1) as nat,
                            ));
                            assert(it_decls + (seq![new_view] + rest1)
                                =~= it_decls.push(new_view) + rest1);
                        },
                        (Err(er), _) => {
                            assert(parse_decls_spec(toks, it_pos).0
                                == Err::<Seq<DeclV>, ErrorView>(er));
                        },
                    }
                }
            },
            Some(t) => {
                return Err(Error::UnexpectedToken(t));
            },
        }
    }
    Ok(result)
}

} // verus!


