//! The token vocabulary of the language and the character cursor that the
//! lexer reads through.

use vstd::prelude::*;
use vstd::std_specs::cmp::PartialEqSpecImpl;
use crate::text::{chars_of, decimal_text, ident_char, int_to_text, is_ident_char};

verus! {

/// One lexical unit. Keywords, operators and symbols carry nothing; literals
/// and identifiers carry their payload. A floating-point literal carries its
/// text as written (digits, a point, digits).
#[derive(Debug)]
pub enum Token {
    // Data types
    Int,
    Float,
    Str,
    Bool,
    Void,
    // Keywords
    If,
    Else,
    While,
    For,
    Print,
    Return,
    // Operators
    Plus,
    Minus,
    Multiply,
    Divide,
    Modulo,
    Assign,
    Equals,
    NotEquals,
    LessThan,
    GreaterThan,
    LessThanOrEqual,
    GreaterThanOrEqual,
    And,
    Or,
    Not,
    // Symbols
    Colon,
    Semicolon,
    Comma,
    LeftParen,
    RightParen,
    LeftBrace,
    RightBrace,
    // Literals
    Identifier(String),
    Integer(i64),
    CFloat(String),
    String(String),
    Boolean(bool),
    // End of input
    Eof,
}

/// The mathematical value of a [`Token`]: the same variants, with text as a
/// sequence of characters.
pub ghost enum TokenView {
    Int,
    Float,
    Str,
    Bool,
    Void,
    If,
    Else,
    While,
    For,
    Print,
    Return,
    Plus,
    Minus,
    Multiply,
    Divide,
    Modulo,
    Assign,
    Equals,
    NotEquals,
    LessThan,
    GreaterThan,
    LessThanOrEqual,
    GreaterThanOrEqual,
    And,
    Or,
    Not,
    Colon,
    Semicolon,
    Comma,
    LeftParen,
    RightParen,
    LeftBrace,
    RightBrace,
    Identifier(Seq<char>),
    Integer(i64),
    CFloat(Seq<char>),
    String(Seq<char>),
    Boolean(bool),
    Eof,
}

impl View for Token {
    type V = TokenView;

    open spec fn view(&self) -> TokenView {
        match self {
            Token::Int => TokenView::Int,
            Token::Float => TokenView::Float,
            Token::Str => TokenView::Str,
            Token::Bool => TokenView::Bool,
            Token::Void => TokenView::Void,
            Token::If => TokenView::If,
            Token::Else => TokenView::Else,
            Token::While => TokenView::While,
            Token::For => TokenView::For,
            Token::Print => TokenView::Print,
            Token::Return => TokenView::Return,
            Token::Plus => TokenView::Plus,
            Token::Minus => TokenView::Minus,
            Token::Multiply => TokenView::Multiply,
            Token::Divide => TokenView::Divide,
            Token::Modulo => TokenView::Modulo,
            Token::Assign => TokenView::Assign,
            Token::Equals => TokenView::Equals,
            Token::NotEquals => TokenView::NotEquals,
            Token::LessThan => TokenView::LessThan,
            Token::GreaterThan => TokenView::GreaterThan,
            Token::LessThanOrEqual => TokenView::LessThanOrEqual,
            Token::GreaterThanOrEqual => TokenView::GreaterThanOrEqual,
            Token::And => TokenView::And,
            Token::Or => TokenView::Or,
            Token::Not => TokenView::Not,
            Token::Colon => TokenView::Colon,
            Token::Semicolon => TokenView::Semicolon,
            Token::Comma => TokenView::Comma,
            Token::LeftParen => TokenView::LeftParen,
            Token::RightParen => TokenView::RightParen,
            Token::LeftBrace => TokenView::LeftBrace,
            Token::RightBrace => TokenView::RightBrace,
            Token::Identifier(s) => TokenView::Identifier(s@),
            Token::Integer(i) => TokenView::Integer(*i),
            Token::CFloat(s) => TokenView::CFloat(s@),
            Token::String(s) => TokenView::String(s@),
            Token::Boolean(b) => TokenView::Boolean(*b),
            Token::Eof => TokenView::Eof,
        }
    }
}

/// How a token is named in a message: a keyword, an operator or a symbol by
/// the name of its variant, an identifier or a literal by its text.
pub open spec fn token_name(token: TokenView) -> Seq<char> {
    match token {
        TokenView::Int => "Int"@,
        TokenView::Float => "Float"@,
        TokenView::Str => "Str"@,
        TokenView::Bool => "Bool"@,
        TokenView::Void => "Void"@,
        TokenView::If => "If"@,
        TokenView::Else => "Else"@,
        TokenView::While => "While"@,
        TokenView::For => "For"@,
        TokenView::Print => "Print"@,
        TokenView::Return => "Return"@,
        TokenView::Plus => "Plus"@,
        TokenView::Minus => "Minus"@,
        TokenView::Multiply => "Multiply"@,
        TokenView::Divide => "Divide"@,
        TokenView::Modulo => "Modulo"@,
        TokenView::Assign => "Assign"@,
        TokenView::Equals => "Equals"@,
        TokenView::NotEquals => "NotEquals"@,
        TokenView::LessThan => "LessThan"@,
        TokenView::GreaterThan => "GreaterThan"@,
        TokenView::LessThanOrEqual => "LessThanOrEqual"@,
        TokenView::GreaterThanOrEqual => "GreaterThanOrEqual"@,
        TokenView::And => "And"@,
        TokenView::Or => "Or"@,
        TokenView::Not => "Not"@,
        TokenView::Colon => "Colon"@,
        TokenView::Semicolon => "Semicolon"@,
        TokenView::Comma => "Comma"@,
        TokenView::LeftParen => "LeftParen"@,
        TokenView::RightParen => "RightParen"@,
        TokenView::LeftBrace => "LeftBrace"@,
        TokenView::RightBrace => "RightBrace"@,
        TokenView::Identifier(name) => name,
        TokenView::Integer(i) => decimal_text(i as int),
        TokenView::CFloat(text) => text,
        TokenView::String(text) => text,
        TokenView::Boolean(b) => if b {
            "true"@
        } else {
            "false"@
        },
        TokenView::Eof => "Eof"@,
    }
}

impl Token {
    /// How this token is named in a message.
    pub fn name(&self) -> (text: String)
        ensures
            text@ == token_name(self@),
    {
        match self {
            Token::Int => String::from_str("Int"),
            Token::Float => String::from_str("Float"),
            Token::Str => String::from_str("Str"),
            Token::Bool => String::from_str("Bool"),
            Token::Void => String::from_str("Void"),
            Token::If => String::from_str("If"),
            Token::Else => String::from_str("Else"),
            Token::While => String::from_str("While"),
            Token::For => String::from_str("For"),
            Token::Print => String::from_str("Print"),
            Token::Return => String::from_str("Return"),
            Token::Plus => String::from_str("Plus"),
            Token::Minus => String::from_str("Minus"),
            Token::Multiply => String::from_str("Multiply"),
            Token::Divide => String::from_str("Divide"),
            Token::Modulo => String::from_str("Modulo"),
            Token::Assign => String::from_str("Assign"),
            Token::Equals => String::from_str("Equals"),
            Token::NotEquals => String::from_str("NotEquals"),
            Token::LessThan => String::from_str("LessThan"),
            Token::GreaterThan => String::from_str("GreaterThan"),
            Token::LessThanOrEqual => String::from_str("LessThanOrEqual"),
            Token::GreaterThanOrEqual => String::from_str("GreaterThanOrEqual"),
            Token::And => String::from_str("And"),
            Token::Or => String::from_str("Or"),
            Token::Not => String::from_str("Not"),
            Token::Colon => String::from_str("Colon"),
            Token::Semicolon => String::from_str("Semicolon"),
            Token::Comma => String::from_str("Comma"),
            Token::LeftParen => String::from_str("LeftParen"),
            Token::RightParen => String::from_str("RightParen"),
            Token::LeftBrace => String::from_str("LeftBrace"),
            Token::RightBrace => String::from_str("RightBrace"),
            Token::Identifier(name) => name.clone(),
            Token::Integer(i) => int_to_text(*i),
            Token::CFloat(text) => text.clone(),
            Token::String(text) => text.clone(),
            Token::Boolean(b) => if *b {
                String::from_str("true")
            } else {
                String::from_str("false")
            },
            Token::Eof => String::from_str("Eof"),
        }
    }
}

/// The values of a sequence of tokens, one by one.
pub open spec fn token_views(tokens: Seq<Token>) -> Seq<TokenView> {
    Seq::new(tokens.len(), |i: int| tokens[i]@)
}

impl PartialEq for Token {
    fn eq(&self, other: &Token) -> (r: bool) {
        match (self, other) {
            (Token::Int, Token::Int) => true,
            (Token::Float, Token::Float) => true,
            (Token::Str, Token::Str) => true,
            (Token::Bool, Token::Bool) => true,
            (Token::Void, Token::Void) => true,
            (Token::If, Token::If) => true,
            (Token::Else, Token::Else) => true,
            (Token::While, Token::While) => true,
            (Token::For, Token::For) => true,
            (Token::Print, Token::Print) => true,
            (Token::Return, Token::Return) => true,
            (Token::Plus, Token::Plus) => true,
            (Token::Minus, Token::Minus) => true,
            (Token::Multiply, Token::Multiply) => true,
            (Token::Divide, Token::Divide) => true,
            (Token::Modulo, Token::Modulo) => true,
            (Token::Assign, Token::Assign) => true,
            (Token::Equals, Token::Equals) => true,
            (Token::NotEquals, Token::NotEquals) => true,
            (Token::LessThan, Token::LessThan) => true,
            (Token::GreaterThan, Token::GreaterThan) => true,
            (Token::LessThanOrEqual, Token::LessThanOrEqual) => true,
            (Token::GreaterThanOrEqual, Token::GreaterThanOrEqual) => true,
            (Token::And, Token::And) => true,
            (Token::Or, Token::Or) => true,
            (Token::Not, Token::Not) => true,
            (Token::Colon, Token::Colon) => true,
            (Token::Semicolon, Token::Semicolon) => true,
            (Token::Comma, Token::Comma) => true,
            (Token::LeftParen, Token::LeftParen) => true,
            (Token::RightParen, Token::RightParen) => true,
            (Token::LeftBrace, Token::LeftBrace) => true,
            (Token::RightBrace, Token::RightBrace) => true,
            (Token::Identifier(a), Token::Identifier(b)) => *a == *b,
            (Token::Integer(a), Token::Integer(b)) => *a == *b,
            (Token::CFloat(a), Token::CFloat(b)) => *a == *b,
            (Token::String(a), Token::String(b)) => *a == *b,
            (Token::Boolean(a), Token::Boolean(b)) => *a == *b,
            (Token::Eof, Token::Eof) => true,
            _ => false,
        }
    }
}

impl Eq for Token {

}

impl Clone for Token {
    fn clone(&self) -> (r: Token)
        ensures
            r@ == self@,
    {
        match self {
            Token::Int => Token::Int,
            Token::Float => Token::Float,
            Token::Str => Token::Str,
            Token::Bool => Token::Bool,
            Token::Void => Token::Void,
            Token::If => Token::If,
            Token::Else => Token::Else,
            Token::While => Token::While,
            Token::For => Token::For,
            Token::Print => Token::Print,
            Token::Return => Token::Return,
            Token::Plus => Token::Plus,
            Token::Minus => Token::Minus,
            Token::Multiply => Token::Multiply,
            Token::Divide => Token::Divide,
            Token::Modulo => Token::Modulo,
            Token::Assign => Token::Assign,
            Token::Equals => Token::Equals,
            Token::NotEquals => Token::NotEquals,
            Token::LessThan => Token::LessThan,
            Token::GreaterThan => Token::GreaterThan,
            Token::LessThanOrEqual => Token::LessThanOrEqual,
            Token::GreaterThanOrEqual => Token::GreaterThanOrEqual,
            Token::And => Token::And,
            Token::Or => Token::Or,
            Token::Not => Token::Not,
            Token::Colon => Token::Colon,
            Token::Semicolon => Token::Semicolon,
            Token::Comma => Token::Comma,
            Token::LeftParen => Token::LeftParen,
            Token::RightParen => Token::RightParen,
            Token::LeftBrace => Token::LeftBrace,
            Token::RightBrace => Token::RightBrace,
            Token::Identifier(s) => Token::Identifier(s.clone()),
            Token::Integer(i) => Token::Integer(*i),
            Token::CFloat(s) => Token::CFloat(s.clone()),
            Token::String(s) => Token::String(s.clone()),
            Token::Boolean(b) => Token::Boolean(*b),
            Token::Eof => Token::Eof,
        }
    }
}

impl PartialEqSpecImpl for Token {
    open spec fn obeys_eq_spec() -> bool {
        true
    }

    open spec fn eq_spec(&self, other: &Token) -> bool {
        self@ == other@
    }
}

/// A cursor over the characters of a source text.
pub struct Tokenizer {
    input: Vec<char>,
    pos: usize,
}

/// The longest prefix of `s` made of identifier characters.
pub open spec fn ident_run(s: Seq<char>) -> Seq<char>
    decreases s.len(),
{
    if s.len() > 0 && is_ident_char(s[0]) {
        seq![s[0]] + ident_run(s.drop_first())
    } else {
        Seq::empty()
    }
}

/// The first character of `s`, if it has one.
pub open spec fn first_char(s: Seq<char>) -> Option<char> {
    if s.len() > 0 {
        Some(s[0])
    } else {
        None
    }
}

impl Tokenizer {
    #[verifier::type_invariant]
    spec fn wf(self) -> bool {
        self.pos <= self.input.len()
    }

    /// The whole text the cursor runs over.
    pub closed spec fn source(&self) -> Seq<char> {
        self.input@
    }

    /// How many characters have been read.
    pub closed spec fn offset(&self) -> nat {
        self.pos as nat
    }

    /// The characters not yet read.
    pub open spec fn remaining(&self) -> Seq<char> {
        self.source().skip(self.offset() as int)
    }

    /// A cursor at the start of `input`.
    pub fn new(input: &str) -> (t: Tokenizer)
        ensures
            t.source() == input@,
            t.offset() == 0,
            t.remaining() == input@,
    {
        let t = Tokenizer { input: chars_of(input), pos: 0 };
        assert(t.input@.skip(0) =~= t.input@);
        t
    }

    /// The character at the cursor, without reading it.
    pub fn peek(&self) -> (c: Option<char>)
        ensures
            c == first_char(self.remaining()),
            self.offset() <= self.source().len(),
    {
        proof {
            use_type_invariant(self);
        }
        if self.pos < self.input.len() {
            Some(self.input[self.pos])
        } else {
            None
        }
    }

    /// Reads one character; at the end of the text the cursor stays.
    pub fn bump(&mut self)
        ensures
            final(self).source() == old(self).source(),
            old(self).offset() < old(self).source().len() ==> final(self).offset() == old(self).offset() + 1,
            old(self).offset() >= old(self).source().len() ==> final(self).offset() == old(self).offset(),
            final(self).offset() <= final(self).source().len(),
    {
        proof {
            use_type_invariant(&*self);
        }
        if self.pos < self.input.len() {
            self.pos = self.pos + 1;
        }
    }

    /// The cursor's place, to come back to with [`Tokenizer::reset`].
    pub fn mark(&self) -> (m: usize)
        ensures
            m == self.offset(),
            m <= self.source().len(),
    {
        proof {
            use_type_invariant(self);
        }
        self.pos
    }

    /// Puts the cursor at `m`, or at the end of the text if `m` lies beyond it.
    pub fn reset(&mut self, m: usize)
        ensures
            final(self).source() == old(self).source(),
            m <= old(self).source().len() ==> final(self).offset() == m,
            m > old(self).source().len() ==> final(self).offset() == old(self).source().len(),
    {
        if m <= self.input.len() {
            self.pos = m;
        } else {
            self.pos = self.input.len();
        }
    }

    /// Reads the identifier at the cursor: the longest run of letters, digits
    /// and `_` that starts there. `first` is the character the caller saw at
    /// the cursor; the run is read from the input itself.
    pub fn read_identifier(&mut self, first: char) -> (ident: String)
        ensures
            ident@ == ident_run(old(self).remaining()),
            final(self).source() == old(self).source(),
            final(self).offset() == old(self).offset() + ident@.len(),
            final(self).offset() <= final(self).source().len(),
    {
        proof {
            use_type_invariant(&*self);
        }
        let mut ident = String::new();
        let ghost start = self.remaining();
        let ghost start_pos = self.pos;
        assert(start.skip(0) =~= start);
        while self.pos < self.input.len() && ident_char(self.input[self.pos])
            invariant
                self.pos <= self.input.len(),
                self.input == old(self).input,
                self.pos == start_pos + ident@.len(),
                start == old(self).remaining(),
                ident@ + ident_run(self.remaining()) == ident_run(start),
            decreases self.input.len() - self.pos,
        {
            let c = self.input[self.pos];
            let ghost before = self.remaining();
            assert(before[0] == c);
            assert(ident_run(before) == seq![c] + ident_run(before.drop_first()));
            ident.push(c);
            self.pos = self.pos + 1;
            assert(self.remaining() =~= before.drop_first());
            assert(ident@ + ident_run(self.remaining()) =~= ident_run(start));
        }
        assert(ident_run(self.remaining()) =~= Seq::<char>::empty());
        assert(ident@ =~= ident_run(start));
        ident
    }
}

} // verus!
