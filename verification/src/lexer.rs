//! The lexer: source text in, tokens out.
//!
//! [`Lexer`] reads a text token by token and [`tokenize`] reads it whole;
//! both are held to [`crate::lexical`].

use vstd::prelude::*;
use crate::lexical::{
    checked_decimal, decimal_value, digit_run, extend, lemma_digit_run, lemma_extend_nothing,
    lemma_extend_twice, lemma_lex_unfold, lemma_scan_token_length, lex, next_token, prepend,
    scan_number, scan_string, scan_string_body, skip_spaces, symbol, unescape, word_token,
};
use crate::text::{digit, digit_of, is_digit, is_word, letter};
use crate::token::{first_char, ident_run, token_views, Token, TokenView, Tokenizer};

pub use crate::lexical::LexError;

verus! {

/// Whether `c` is a decimal digit.
fn some_digit(c: Option<char>) -> (r: bool)
    ensures
        r == (c matches Some(d) && is_digit(d)),
{
    match c {
        Some(d) => digit(d),
        None => false,
    }
}

/// Produces the tokens of one source text, one call at a time.
pub struct Lexer {
    cursor: Tokenizer,
}

impl Lexer {
    /// The whole text being lexed.
    pub closed spec fn source(&self) -> Seq<char> {
        self.cursor.source()
    }

    /// How many characters have been read.
    pub closed spec fn offset(&self) -> nat {
        self.cursor.offset()
    }

    /// The characters not yet read.
    pub open spec fn remaining(&self) -> Seq<char> {
        self.source().skip(self.offset() as int)
    }

    /// A lexer at the start of `input`.
    pub fn new(input: &str) -> (lexer: Lexer)
        ensures
            lexer.source() == input@,
            lexer.offset() == 0,
            lexer.remaining() == input@,
    {
        Lexer { cursor: Tokenizer::new(input) }
    }

    fn looking_at(&self, c: char) -> (r: bool)
        ensures
            r == (first_char(self.remaining()) == Some(c)),
            self.offset() <= self.source().len(),
    {
        match self.cursor.peek() {
            Some(d) => d == c,
            None => false,
        }
    }

    fn skip_whitespace(&mut self)
        ensures
            final(self).source() == old(self).source(),
            final(self).remaining() == skip_spaces(old(self).remaining()),
            old(self).offset() <= final(self).offset() <= final(self).source().len(),
    {
        let mut next = self.cursor.peek();
        while next == Some(' ') || next == Some('\t') || next == Some('\n') || next == Some('\r')
            invariant
                self.source() == old(self).source(),
                old(self).offset() <= self.offset() <= self.source().len(),
                next == first_char(self.remaining()),
                skip_spaces(self.remaining()) == skip_spaces(old(self).remaining()),
            decreases self.source().len() - self.offset(),
        {
            let ghost before = self.remaining();
            self.cursor.bump();
            assert(self.remaining() =~= before.drop_first());
            next = self.cursor.peek();
        }
    }

    /// Reads the identifier at the cursor: the longest run of letters, digits
    /// and `_` that starts there. `first_char` is the character the caller
    /// saw at the cursor.
    pub fn read_identifier(&mut self, first_char: char) -> (ident: String)
        ensures
            ident@ == ident_run(old(self).remaining()),
            final(self).source() == old(self).source(),
            final(self).offset() == old(self).offset() + ident@.len(),
            final(self).offset() <= final(self).source().len(),
    {
        self.cursor.read_identifier(first_char)
    }

    /// Reads the digits at the cursor onto the end of `text`. Returns how
    /// many there were and their value, if it fits.
    fn read_digits(&mut self, text: &mut String) -> (r: (usize, Option<i64>))
        ensures
            final(self).source() == old(self).source(),
            final(self).offset() == old(self).offset() + digit_run(old(self).remaining()).len(),
            final(self).offset() <= final(self).source().len(),
            final(text)@ == old(text)@ + digit_run(old(self).remaining()),
            r.0 == digit_run(old(self).remaining()).len(),
            r.1 == checked_decimal(digit_run(old(self).remaining())),
    {
        let ghost start = self.remaining();
        let ghost mut read: Seq<char> = Seq::empty();
        let begin = self.cursor.mark();
        let mut value: Option<i64> = Some(0);
        let mut next = self.cursor.peek();
        assert(text@ =~= old(text)@ + read);
        assert(read + digit_run(self.remaining()) =~= digit_run(start));
        while some_digit(next)
            invariant
                self.source() == old(self).source(),
                self.offset() == old(self).offset() + read.len(),
                self.offset() <= self.source().len(),
                text@ == old(text)@ + read,
                begin == old(self).offset(),
                value == checked_decimal(read),
                0 <= decimal_value(read),
                next == first_char(self.remaining()),
                read + digit_run(self.remaining()) == digit_run(start),
            decreases self.source().len() - self.offset(),
        {
            let c = next.unwrap();
            let d = digit_of(c);
            let ghost before = self.remaining();
            let ghost longer = read.push(c);
            assert(longer.drop_last() =~= read);
            assert(decimal_value(longer) == 10 * decimal_value(read) + d);
            value =
            match value {
                Some(v) => if v <= (i64::MAX - d) / 10 {
                    Some(v * 10 + d)
                } else {
                    None
                },
                None => None,
            };
            text.push(c);
            self.cursor.bump();
            proof {
                assert(self.remaining() =~= before.drop_first());
                assert(longer + digit_run(self.remaining()) =~= digit_run(start));
                read = longer;
            }
            next = self.cursor.peek();
        }
        assert(digit_run(self.remaining()) =~= Seq::<char>::empty());
        assert(read =~= digit_run(start));
        let end = self.cursor.mark();
        (end - begin, value)
    }

    /// Reads the number at the cursor. On an error the cursor stays where
    /// it was. `first_char` is the character the caller saw at the cursor.
    pub fn read_number(&mut self, first_char: char) -> (r: Result<Token, LexError>)
        ensures
            final(self).source() == old(self).source(),
            final(self).offset() <= final(self).source().len(),
            match scan_number(old(self).remaining()) {
                Ok((token, n)) => r matches Ok(t) && t@ == token && final(self).offset() == old(self).offset() + n,
                Err(e) => r matches Err(x) && x == e && final(self).offset() == old(self).offset(),
            },
    {
        let start = self.cursor.mark();
        let ghost s = self.remaining();
        let mut text = String::new();
        let (digits, whole) = self.read_digits(&mut text);
        let ghost after = self.remaining();
        proof {
            lemma_digit_run(s);
            assert(after =~= s.skip(digit_run(s).len() as int));
            assert(text@ =~= digit_run(s));
        }
        if digits == 0 {
            Err(LexError::MalformedNumber)
        } else if self.looking_at('.') {
            self.cursor.bump();
            text.push('.');
            assert(self.remaining() =~= after.drop_first());
            let (count, _) = self.read_digits(&mut text);
            proof {
                let frac = digit_run(after.drop_first());
                lemma_digit_run(after.drop_first());
                assert(self.remaining() =~= after.skip(1 + frac.len() as int));
                assert(text@ =~= digit_run(s) + seq!['.'] + frac);
            }
            if count == 0 || self.looking_at('.') {
                self.cursor.reset(start);
                Err(LexError::MalformedNumber)
            } else {
                Ok(Token::CFloat(text))
            }
        } else {
            match whole {
                Some(v) => Ok(Token::Integer(v)),
                None => {
                    self.cursor.reset(start);
                    Err(LexError::MalformedNumber)
                },
            }
        }
    }

    /// Reads the string literal at the cursor and returns its text, escapes
    /// replaced. The character at the cursor is taken as the opening quote.
    /// On an error the cursor stays where it was.
    pub fn read_string(&mut self) -> (r: Result<String, LexError>)
        ensures
            final(self).source() == old(self).source(),
            final(self).offset() <= final(self).source().len(),
            match scan_string(old(self).remaining()) {
                Ok((text, n)) => r matches Ok(t) && t@ == text && final(self).offset() == old(self).offset() + n,
                Err(e) => r matches Err(x) && x == e && final(self).offset() == old(self).offset(),
            },
    {
        let start = self.cursor.mark();
        let ghost s = self.remaining();
        if self.cursor.peek().is_none() {
            return Err(LexError::UnterminatedString);
        }
        self.cursor.bump();
        let ghost body = self.remaining();
        assert(body =~= s.drop_first());
        let mut text = String::new();
        let ghost mut taken: nat = 0;
        assert(extend(text@, taken, scan_string_body(self.remaining())) =~= scan_string_body(body))
            by {
            lemma_extend_nothing(scan_string_body(body));
        }
        loop
            invariant
                self.source() == old(self).source(),
                start == old(self).offset(),
                s == old(self).remaining(),
                self.offset() == start + 1 + taken,
                self.offset() <= self.source().len(),
                extend(text@, taken, scan_string_body(self.remaining())) == scan_string_body(
                    body,
                ),
                scan_string(s) == extend(Seq::empty(), 1, scan_string_body(body)),
            decreases self.source().len() - self.offset(),
        {
            let ghost before = self.remaining();
            let c = match self.cursor.peek() {
                Some(c) => c,
                None => {
                    self.cursor.reset(start);
                    return Err(LexError::UnterminatedString);
                },
            };
            self.cursor.bump();
            assert(self.remaining() =~= before.drop_first());
            if c == '"' {
                proof {
                    assert(text@ + Seq::<char>::empty() =~= text@);
                    assert(Seq::<char>::empty() + text@ =~= text@);
                }
                return Ok(text);
            } else if c == '\\' {
                let e = match self.cursor.peek() {
                    Some(e) => e,
                    None => {
                        self.cursor.reset(start);
                        return Err(LexError::UnterminatedString);
                    },
                };
                self.cursor.bump();
                assert(self.remaining() =~= before.skip(2));
                match escaped(e) {
                    Some(plain) => {
                        let ghost prev = text@;
                        text.push(plain);
                        proof {
                            let rest = scan_string_body(self.remaining());
                            assert(text@ =~= prev + seq![plain]);
                            assert(scan_string_body(before) == extend(seq![plain], 2, rest));
                            lemma_extend_twice(prev, taken, seq![plain], 2, rest);
                            taken = taken + 2;
                        }
                    },
                    None => {
                        self.cursor.reset(start);
                        return Err(LexError::UnexpectedCharacter(e));
                    },
                }
            } else {
                let ghost prev = text@;
                text.push(c);
                proof {
                    let rest = scan_string_body(self.remaining());
                    assert(text@ =~= prev + seq![c]);
                    assert(scan_string_body(before) == extend(seq![c], 1, rest));
                    lemma_extend_twice(prev, taken, seq![c], 1, rest);
                    taken = taken + 1;
                }
            }
        }
    }

    /// Reads the next token. Behind the last token of the text every call
    /// returns `Eof`. On an error the cursor stays where it was.
    pub fn next_token(&mut self) -> (r: Result<Token, LexError>)
        ensures
            final(self).source() == old(self).source(),
            final(self).offset() <= final(self).source().len(),
            final(self).offset() >= old(self).offset(),
            match next_token(old(self).remaining()) {
                Ok((token, rest)) => r matches Ok(t) && t@ == token && final(self).remaining()
                    == rest,
                Err(e) => r matches Err(x) && x == e && final(self).offset() == old(self).offset(),
            },
    {
        let start = self.cursor.mark();
        self.skip_whitespace();
        let ghost t = self.remaining();
        let c = match self.cursor.peek() {
            Some(c) => c,
            None => {
                return Ok(Token::Eof);
            },
        };
        proof {
            lemma_scan_token_length(t);
        }
        if digit(c) {
            match self.read_number(c) {
                Ok(token) => {
                    assert(self.remaining() =~= t.skip(scan_number(t).unwrap().1 as int));
                    Ok(token)
                },
                Err(e) => {
                    self.cursor.reset(start);
                    Err(e)
                },
            }
        } else if c == '"' {
            match self.read_string() {
                Ok(text) => {
                    assert(self.remaining() =~= t.skip(scan_string(t).unwrap().1 as int));
                    Ok(Token::String(text))
                },
                Err(e) => {
                    self.cursor.reset(start);
                    Err(e)
                },
            }
        } else if letter(c) {
            let ident = self.read_identifier(c);
            assert(self.remaining() =~= t.skip(ident@.len() as int));
            Ok(word(ident))
        } else {
            self.cursor.bump();
            assert(self.remaining() =~= t.drop_first());
            let next = self.cursor.peek();
            match symbol_token(c, next) {
                Some((token, two)) => {
                    if two {
                        self.cursor.bump();
                        assert(self.remaining() =~= t.skip(2));
                    } else {
                        assert(self.remaining() =~= t.skip(1));
                    }
                    Ok(token)
                },
                None => {
                    self.cursor.reset(start);
                    Err(LexError::UnexpectedCharacter(c))
                },
            }
        }
    }
}

/// The character that `\` followed by `c` stands for in a string literal.
fn escaped(c: char) -> (r: Option<char>)
    ensures
        r == unescape(c),
{
    if c == 'n' {
        Some('\n')
    } else if c == 't' {
        Some('\t')
    } else if c == '\\' {
        Some('\\')
    } else if c == '"' {
        Some('"')
    } else {
        None
    }
}

/// The token that the word `ident` stands for.
fn word(ident: String) -> (token: Token)
    ensures
        token@ == word_token(ident@),
{
    if is_word(&ident, "int") {
        Token::Int
    } else if is_word(&ident, "float") {
        Token::Float
    } else if is_word(&ident, "str") {
        Token::Str
    } else if is_word(&ident, "bool") {
        Token::Bool
    } else if is_word(&ident, "void") {
        Token::Void
    } else if is_word(&ident, "if") {
        Token::If
    } else if is_word(&ident, "else") {
        Token::Else
    } else if is_word(&ident, "while") {
        Token::While
    } else if is_word(&ident, "for") {
        Token::For
    } else if is_word(&ident, "print") {
        Token::Print
    } else if is_word(&ident, "return") {
        Token::Return
    } else if is_word(&ident, "true") {
        Token::Boolean(true)
    } else if is_word(&ident, "false") {
        Token::Boolean(false)
    } else {
        Token::Identifier(ident)
    }
}

/// The operator or symbol that starts with `c`, and whether it takes the
/// character `next` behind it too.
fn symbol_token(c: char, next: Option<char>) -> (r: Option<(Token, bool)>)
    ensures
        match symbol(c, next) {
            Some((token, n)) => r matches Some((t, two)) && t@ == token && n == (if two {
                2nat
            } else {
                1nat
            }),
            None => r is None,
        },
{
    let eq = next == Some('=');
    if c == '+' {
        Some((Token::Plus, false))
    } else if c == '-' {
        Some((Token::Minus, false))
    } else if c == '*' {
        Some((Token::Multiply, false))
    } else if c == '/' {
        Some((Token::Divide, false))
    } else if c == '%' {
        Some((Token::Modulo, false))
    } else if c == '=' {
        if eq {
            Some((Token::Equals, true))
        } else {
            Some((Token::Assign, false))
        }
    } else if c == '!' {
        if eq {
            Some((Token::NotEquals, true))
        } else {
            Some((Token::Not, false))
        }
    } else if c == '<' {
        if eq {
            Some((Token::LessThanOrEqual, true))
        } else {
            Some((Token::LessThan, false))
        }
    } else if c == '>' {
        if eq {
            Some((Token::GreaterThanOrEqual, true))
        } else {
            Some((Token::GreaterThan, false))
        }
    } else if c == '&' {
        if next == Some('&') {
            Some((Token::And, true))
        } else {
            None
        }
    } else if c == '|' {
        if next == Some('|') {
            Some((Token::Or, true))
        } else {
            None
        }
    } else if c == '(' {
        Some((Token::LeftParen, false))
    } else if c == ')' {
        Some((Token::RightParen, false))
    } else if c == '{' {
        Some((Token::LeftBrace, false))
    } else if c == '}' {
        Some((Token::RightBrace, false))
    } else if c == ':' {
        Some((Token::Colon, false))
    } else if c == ';' {
        Some((Token::Semicolon, false))
    } else if c == ',' {
        Some((Token::Comma, false))
    } else {
        None
    }
}

/// The tokens of `source`, closed by `Eof`, or the first lexical error.
pub fn tokenize(source: &str) -> (r: Result<Vec<Token>, LexError>)
    ensures
        match lex(source@) {
            Ok(tokens) => r matches Ok(v) && token_views(v@) == tokens,
            Err(e) => r matches Err(x) && x == e,
        },
{
    let mut lexer = Lexer::new(source);
    let mut tokens: Vec<Token> = Vec::new();
    assert(token_views(tokens@) + Seq::<TokenView>::empty() =~= Seq::<TokenView>::empty());
    assert(prepend(token_views(tokens@), lex(lexer.remaining())) =~= lex(source@)) by {
        match lex(source@) {
            Ok(all) => {
                assert(token_views(tokens@) + all =~= all);
            },
            Err(_) => {},
        }
    }
    loop
        invariant
            lexer.source() == source@,
            lexer.offset() <= lexer.source().len(),
            prepend(token_views(tokens@), lex(lexer.remaining())) == lex(source@),
        decreases lexer.source().len() - lexer.offset(),
    {
        let ghost before = lexer.remaining();
        let ghost done = token_views(tokens@);
        proof {
            lemma_lex_unfold(before);
        }
        match lexer.next_token() {
            Ok(token) => {
                let last = match token {
                    Token::Eof => true,
                    _ => false,
                };
                let ghost view = token@;
                tokens.push(token);
                assert(token_views(tokens@) =~= done + seq![view]);
                if last {
                    return Ok(tokens);
                }
                proof {
                    match lex(lexer.remaining()) {
                        Ok(rest) => {
                            assert(done + (seq![view] + rest) =~= (done + seq![view]) + rest);
                        },
                        Err(_) => {},
                    }
                }
            },
            Err(e) => {
                return Err(e);
            },
        }
    }
}

} // verus!
