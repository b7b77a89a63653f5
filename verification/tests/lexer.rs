use cube::lexer::{tokenize, LexError, Lexer};
use cube::token::{Token, Tokenizer};

#[test]
fn test_read_identifier() {
    let input = "hello";
    let mut tokenizer = Tokenizer::new(input);
    let ident = tokenizer.read_identifier('h');
    assert_eq!(ident, "hello");
}

#[test]
fn integer_literal_gives_integer_then_eof() {
    assert_eq!(tokenize("42"), Ok(vec![Token::Integer(42), Token::Eof]));
    assert_eq!(tokenize("0"), Ok(vec![Token::Integer(0), Token::Eof]));
    assert_eq!(
        tokenize("9223372036854775807"),
        Ok(vec![Token::Integer(i64::MAX), Token::Eof])
    );
}

#[test]
fn integer_literal_too_large_is_malformed() {
    assert_eq!(tokenize("9223372036854775808"), Err(LexError::MalformedNumber));
}

#[test]
fn string_literal_gives_string_then_eof() {
    assert_eq!(
        tokenize("\"hello world\""),
        Ok(vec![Token::String("hello world".to_string()), Token::Eof])
    );
    assert_eq!(tokenize("\"\""), Ok(vec![Token::String(String::new()), Token::Eof]));
}

#[test]
fn lexer_reads_string_behind_quote() {
    let mut lexer = Lexer::new("\"a\\tb\" rest");
    assert_eq!(lexer.read_string(), Ok("a\tb".to_string()));
    assert_eq!(lexer.next_token(), Ok(Token::Identifier("rest".to_string())));
    assert_eq!(lexer.next_token(), Ok(Token::Eof));
    assert_eq!(lexer.next_token(), Ok(Token::Eof));
}

#[test]
fn keywords_operators_and_symbols() {
    assert_eq!(
        tokenize("int float str bool void if else while for print return"),
        Ok(vec![
            Token::Int,
            Token::Float,
            Token::Str,
            Token::Bool,
            Token::Void,
            Token::If,
            Token::Else,
            Token::While,
            Token::For,
            Token::Print,
            Token::Return,
            Token::Eof
        ])
    );
    assert_eq!(
        tokenize("+ - * / % = == != < > <= >= && || ! : ; , ( ) { }"),
        Ok(vec![
            Token::Plus,
            Token::Minus,
            Token::Multiply,
            Token::Divide,
            Token::Modulo,
            Token::Assign,
            Token::Equals,
            Token::NotEquals,
            Token::LessThan,
            Token::GreaterThan,
            Token::LessThanOrEqual,
            Token::GreaterThanOrEqual,
            Token::And,
            Token::Or,
            Token::Not,
            Token::Colon,
            Token::Semicolon,
            Token::Comma,
            Token::LeftParen,
            Token::RightParen,
            Token::LeftBrace,
            Token::RightBrace,
            Token::Eof
        ])
    );
}

#[test]
fn two_character_operators_are_matched_greedily() {
    assert_eq!(
        tokenize("a<=b"),
        Ok(vec![
            Token::Identifier("a".to_string()),
            Token::LessThanOrEqual,
            Token::Identifier("b".to_string()),
            Token::Eof
        ])
    );
    assert_eq!(tokenize("==="), Ok(vec![Token::Equals, Token::Assign, Token::Eof]));
    assert_eq!(tokenize("!!="), Ok(vec![Token::Not, Token::NotEquals, Token::Eof]));
}

#[test]
fn identifiers_and_booleans() {
    assert_eq!(
        tokenize("x_1 true false truth If"),
        Ok(vec![
            Token::Identifier("x_1".to_string()),
            Token::Boolean(true),
            Token::Boolean(false),
            Token::Identifier("truth".to_string()),
            Token::Identifier("If".to_string()),
            Token::Eof
        ])
    );
}

#[test]
fn whitespace_is_skipped_and_input_is_never_empty() {
    assert_eq!(tokenize(""), Ok(vec![Token::Eof]));
    assert_eq!(tokenize(" \t\r\n "), Ok(vec![Token::Eof]));
    assert_eq!(
        tokenize("x:int=5;"),
        Ok(vec![
            Token::Identifier("x".to_string()),
            Token::Colon,
            Token::Int,
            Token::Assign,
            Token::Integer(5),
            Token::Semicolon,
            Token::Eof
        ])
    );
}

#[test]
fn float_literals() {
    assert_eq!(tokenize("3.14"), Ok(vec![Token::CFloat("3.14".to_string()), Token::Eof]));
    assert_eq!(tokenize("007"), Ok(vec![Token::Integer(7), Token::Eof]));
    assert_eq!(tokenize("1."), Err(LexError::MalformedNumber));
    assert_eq!(tokenize("1.2.3"), Err(LexError::MalformedNumber));
    assert_eq!(tokenize("1..2"), Err(LexError::MalformedNumber));
    assert_eq!(tokenize("x = 1.;"), Err(LexError::MalformedNumber));
}

#[test]
fn string_escapes() {
    assert_eq!(
        tokenize("\"a\\nb\\t\\\\\\\"\""),
        Ok(vec![Token::String("a\nb\t\\\"".to_string()), Token::Eof])
    );
    assert_eq!(tokenize("\"a\\qb\""), Err(LexError::UnexpectedCharacter('q')));
}

#[test]
fn unterminated_strings() {
    assert_eq!(tokenize("\"abc"), Err(LexError::UnterminatedString));
    assert_eq!(tokenize("\""), Err(LexError::UnterminatedString));
    assert_eq!(tokenize("\"abc\\"), Err(LexError::UnterminatedString));
    assert_eq!(tokenize("x \"abc\\\""), Err(LexError::UnterminatedString));
}

#[test]
fn unexpected_characters() {
    assert_eq!(tokenize("a & b"), Err(LexError::UnexpectedCharacter('&')));
    assert_eq!(tokenize("a | b"), Err(LexError::UnexpectedCharacter('|')));
    assert_eq!(tokenize("a # b"), Err(LexError::UnexpectedCharacter('#')));
    assert_eq!(tokenize("_a"), Err(LexError::UnexpectedCharacter('_')));
    assert_eq!(tokenize("é"), Err(LexError::UnexpectedCharacter('é')));
}

#[test]
fn lexer_stays_put_on_error() {
    let mut lexer = Lexer::new("  #");
    assert_eq!(lexer.next_token(), Err(LexError::UnexpectedCharacter('#')));
    assert_eq!(lexer.next_token(), Err(LexError::UnexpectedCharacter('#')));
    let mut lexer = Lexer::new("12.x");
    assert_eq!(lexer.read_number('1'), Err(LexError::MalformedNumber));
    assert_eq!(lexer.read_identifier('1'), "12");
}

#[test]
fn lexer_reads_identifier_run() {
    let mut lexer = Lexer::new("abc_9 def");
    assert_eq!(lexer.read_identifier('a'), "abc_9");
    assert_eq!(lexer.read_identifier(' '), "");
    assert_eq!(lexer.next_token(), Ok(Token::Identifier("def".to_string())));
}

#[test]
fn tokenizer_cursor() {
    let mut t = Tokenizer::new("ab");
    assert_eq!(t.peek(), Some('a'));
    let m = t.mark();
    t.bump();
    assert_eq!(t.peek(), Some('b'));
    t.bump();
    assert_eq!(t.peek(), None);
    t.bump();
    assert_eq!(t.peek(), None);
    t.reset(m);
    assert_eq!(t.read_identifier('a'), "ab");
    t.reset(100);
    assert_eq!(t.peek(), None);
}

#[test]
fn token_names() {
    assert_eq!(Token::Plus.name(), "Plus");
    assert_eq!(Token::Eof.name(), "Eof");
    assert_eq!(Token::Identifier("abc".to_string()).name(), "abc");
    assert_eq!(Token::Integer(-120).name(), "-120");
    assert_eq!(Token::Integer(i64::MIN).name(), "-9223372036854775808");
    assert_eq!(Token::Integer(0).name(), "0");
    assert_eq!(Token::CFloat("1.50".to_string()).name(), "1.50");
    assert_eq!(Token::Boolean(true).name(), "true");
    assert_eq!(Token::String("s".to_string()).name(), "s");
}
