//! Every token sequence is the lexing of its own spelling.
//!
//! [`spelled`] writes tokens as text, a space behind each. The lexer reads
//! such a text back as the tokens that it was written for.

use vstd::prelude::*;
use crate::lexical::{
    digit_run, lemma_decimal_digits, lemma_digit_run, lex, scan_string_body, scan_token,
    skip_spaces, unescape, word_token, LexError,
};
use crate::text::{decimal_digits, decimal_text, is_digit, is_ident_char, is_letter};
use crate::token::{ident_run, TokenView};

verus! {

/// Whether `name` can be the name of an identifier: a letter and then
/// letters, digits and `_`, and no reserved word.
pub open spec fn is_identifier(name: Seq<char>) -> bool {
    &&& name.len() > 0
    &&& is_letter(name[0])
    &&& forall|i: int| 0 <= i < name.len() ==> is_ident_char(#[trigger] name[i])
    &&& word_token(name) == TokenView::Identifier(name)
}

/// Whether `text` can be the text of a floating-point literal: digits, a
/// point, digits.
pub open spec fn is_float_text(text: Seq<char>) -> bool {
    let whole = digit_run(text);
    &&& 0 < whole.len()
    &&& whole.len() + 1 < text.len()
    &&& text[whole.len() as int] == '.'
    &&& forall|i: int| whole.len() < i < text.len() ==> is_digit(#[trigger] text[i])
}

/// How a character of a string is written in a literal.
pub open spec fn escaped_char(c: char) -> Seq<char> {
    if c == '\n' {
        seq!['\\', 'n']
    } else if c == '\t' {
        seq!['\\', 't']
    } else if c == '\\' {
        seq!['\\', '\\']
    } else if c == '"' {
        seq!['\\', '"']
    } else {
        seq![c]
    }
}

/// How the text of a string is written in a literal, between the quotes.
pub open spec fn escaped_text(text: Seq<char>) -> Seq<char>
    decreases text.len(),
{
    if text.len() == 0 {
        Seq::empty()
    } else {
        escaped_char(text[0]) + escaped_text(text.drop_first())
    }
}

/// How a token is written.
pub open spec fn spelling(token: TokenView) -> Seq<char> {
    match token {
        TokenView::Int => "int"@,
        TokenView::Float => "float"@,
        TokenView::Str => "str"@,
        TokenView::Bool => "bool"@,
        TokenView::Void => "void"@,
        TokenView::If => "if"@,
        TokenView::Else => "else"@,
        TokenView::While => "while"@,
        TokenView::For => "for"@,
        TokenView::Print => "print"@,
        TokenView::Return => "return"@,
        TokenView::Plus => seq!['+'],
        TokenView::Minus => seq!['-'],
        TokenView::Multiply => seq!['*'],
        TokenView::Divide => seq!['/'],
        TokenView::Modulo => seq!['%'],
        TokenView::Assign => seq!['='],
        TokenView::Equals => seq!['=', '='],
        TokenView::NotEquals => seq!['!', '='],
        TokenView::LessThan => seq!['<'],
        TokenView::GreaterThan => seq!['>'],
        TokenView::LessThanOrEqual => seq!['<', '='],
        TokenView::GreaterThanOrEqual => seq!['>', '='],
        TokenView::And => seq!['&', '&'],
        TokenView::Or => seq!['|', '|'],
        TokenView::Not => seq!['!'],
        TokenView::Colon => seq![':'],
        TokenView::Semicolon => seq![';'],
        TokenView::Comma => seq![','],
        TokenView::LeftParen => seq!['('],
        TokenView::RightParen => seq![')'],
        TokenView::LeftBrace => seq!['{'],
        TokenView::RightBrace => seq!['}'],
        TokenView::Identifier(name) => name,
        TokenView::Integer(i) => decimal_text(i as int),
        TokenView::CFloat(text) => text,
        TokenView::String(text) => seq!['"'] + escaped_text(text) + seq!['"'],
        TokenView::Boolean(b) => if b {
            "true"@
        } else {
            "false"@
        },
        TokenView::Eof => Seq::empty(),
    }
}

/// Whether a token can be written: whether its name is one, its integer is
/// not negative, or its text is that of a float. The end of the input is
/// not written.
pub open spec fn spellable(token: TokenView) -> bool {
    match token {
        TokenView::Identifier(name) => is_identifier(name),
        TokenView::Integer(i) => i >= 0,
        TokenView::CFloat(text) => is_float_text(text),
        TokenView::Eof => false,
        _ => true,
    }
}

/// The tokens from the `i`th on written as text, a space behind each.
pub open spec fn spelled(tokens: Seq<TokenView>, i: nat) -> Seq<char>
    decreases tokens.len() - i,
{
    if i >= tokens.len() {
        Seq::empty()
    } else {
        spelling(tokens[i as int]) + seq![' '] + spelled(tokens, i + 1)
    }
}

/// A run of identifier characters before a character that is none is the
/// run of the whole.
pub proof fn lemma_ident_run_of(word: Seq<char>, rest: Seq<char>)
    requires
        forall|i: int| 0 <= i < word.len() ==> is_ident_char(#[trigger] word[i]),
        rest.len() > 0 ==> !is_ident_char(rest[0]),
    ensures
        ident_run(word + rest) == word,
    decreases word.len(),
{
    let all = word + rest;
    if word.len() == 0 {
        assert(all =~= rest);
        assert(ident_run(all) =~= word);
    } else {
        assert(all[0] == word[0]);
        assert(all.drop_first() =~= word.drop_first() + rest);
        lemma_ident_run_of(word.drop_first(), rest);
        assert(seq![word[0]] + word.drop_first() =~= word);
    }
}

/// A run of digits before a character that is none is the run of the
/// whole.
pub proof fn lemma_digit_run_of(digits: Seq<char>, rest: Seq<char>)
    requires
        forall|i: int| 0 <= i < digits.len() ==> is_digit(#[trigger] digits[i]),
        rest.len() > 0 ==> !is_digit(rest[0]),
    ensures
        digit_run(digits + rest) == digits,
    decreases digits.len(),
{
    let all = digits + rest;
    if digits.len() == 0 {
        assert(all =~= rest);
        assert(digit_run(all) =~= digits);
    } else {
        assert(all[0] == digits[0]);
        assert(all.drop_first() =~= digits.drop_first() + rest);
        lemma_digit_run_of(digits.drop_first(), rest);
        assert(seq![digits[0]] + digits.drop_first() =~= digits);
    }
}

/// The text of a string, written in a literal and closed by a quote, is
/// read back as the text.
pub proof fn lemma_escaped_text_scans(text: Seq<char>, rest: Seq<char>)
    ensures
        scan_string_body(escaped_text(text) + seq!['"'] + rest) == Ok::<_, LexError>(
            (text, escaped_text(text).len() + 1),
        ),
    decreases text.len(),
{
    let s = escaped_text(text) + seq!['"'] + rest;
    if text.len() == 0 {
        assert(s[0] == '"');
        assert(text =~= Seq::<char>::empty());
    } else {
        let c = text[0];
        let tail = text.drop_first();
        let after = escaped_text(tail) + seq!['"'] + rest;
        lemma_escaped_text_scans(tail, rest);
        let first = escaped_char(c);
        assert(s =~= first + after);
        assert(seq![c] + tail =~= text);
        if first.len() == 2 {
            assert(s[0] == '\\' && s[1] == first[1]);
            assert(s.skip(2) =~= after);
            assert(unescape(s[1]) == Some(c));
        } else {
            assert(s[0] == c);
            assert(s.drop_first() =~= after);
        }
    }
}

/// Whether `token` is a reserved word: a keyword or a boolean literal.
pub open spec fn is_word(token: TokenView) -> bool {
    token is Int || token is Float || token is Str || token is Bool || token is Void
        || token is If || token is Else || token is While || token is For || token is Print
        || token is Return || token is Boolean
}

/// The reserved words are made of letters, and each stands for its token.
pub proof fn lemma_words(token: TokenView)
    requires
        is_word(token),
    ensures
        spelling(token).len() > 0,
        is_letter(spelling(token)[0]),
        forall|i: int| 0 <= i < spelling(token).len() ==> is_ident_char(
            #[trigger] spelling(token)[i],
        ),
        word_token(spelling(token)) == token,
{
    reveal_strlit("int");
    reveal_strlit("float");
    reveal_strlit("str");
    reveal_strlit("bool");
    reveal_strlit("void");
    reveal_strlit("if");
    reveal_strlit("else");
    reveal_strlit("while");
    reveal_strlit("for");
    reveal_strlit("print");
    reveal_strlit("return");
    reveal_strlit("true");
    reveal_strlit("false");
    let w = spelling(token);
    assert("int"@[0] == 'i' && "float"@[0] == 'f' && "str"@[0] == 's' && "bool"@[0] == 'b');
    assert("void"@[0] == 'v' && "if"@[0] == 'i' && "else"@[0] == 'e' && "while"@[0] == 'w');
    assert("for"@[0] == 'f' && "print"@[0] == 'p' && "return"@[0] == 'r' && "true"@[0] == 't');
    assert("false"@[0] == 'f');
    assert("for"@[1] == 'o' && "float"@[1] == 'l' && "false"@[1] == 'a');
    assert("int"@[1] == 'n' && "if"@[1] == 'f');
}

/// A word before a space is read as the token it stands for.
pub proof fn lemma_scan_word(token: TokenView, word: Seq<char>, rest: Seq<char>)
    requires
        word.len() > 0,
        is_letter(word[0]),
        forall|i: int| 0 <= i < word.len() ==> is_ident_char(#[trigger] word[i]),
        word_token(word) == token,
        rest.len() > 0 ==> !is_ident_char(rest[0]),
    ensures
        scan_token(word + rest) == Ok::<_, LexError>((token, word.len())),
{
    lemma_ident_run_of(word, rest);
    assert((word + rest)[0] == word[0]);
}

/// The digits of an integer before a space are read as the integer.
pub proof fn lemma_scan_integer(i: i64, rest: Seq<char>)
    requires
        i >= 0,
        rest.len() > 0 ==> rest[0] == ' ',
    ensures
        scan_token(decimal_text(i as int) + rest) == Ok::<_, LexError>(
            (TokenView::Integer(i), decimal_text(i as int).len()),
        ),
        decimal_text(i as int).len() > 0,
        is_digit(decimal_text(i as int)[0]),
{
    let digits = decimal_digits(i as nat);
    let s = digits + rest;
    lemma_decimal_digits(i as nat);
    lemma_digit_run_of(digits, rest);
    assert(s[0] == digits[0]);
    assert(s.skip(digits.len() as int) =~= rest);
}

/// The text of a float before a space is read as the float.
pub proof fn lemma_scan_float(text: Seq<char>, rest: Seq<char>)
    requires
        is_float_text(text),
        rest.len() > 0 ==> rest[0] == ' ',
    ensures
        scan_token(text + rest) == Ok::<_, LexError>((TokenView::CFloat(text), text.len())),
        is_digit(text[0]),
{
    let s = text + rest;
    let whole = digit_run(text);
    let n = whole.len() as int;
    let frac = text.skip(n + 1);
    lemma_digit_run(text);
    assert(whole =~= text.take(n));
    assert(text =~= whole + (seq!['.'] + frac));
    assert(s =~= whole + (seq!['.'] + frac + rest));
    lemma_digit_run_of(whole, seq!['.'] + frac + rest);
    assert(digit_run(s) == whole);
    assert(is_digit(whole[0]));
    assert(text[0] == whole[0]);
    assert(s[0] == text[0]);
    let after = s.skip(n);
    assert(after =~= seq!['.'] + frac + rest);
    assert(after.drop_first() =~= frac + rest);
    assert forall|i: int| 0 <= i < frac.len() implies is_digit(#[trigger] frac[i]) by {
        assert(frac[i] == text[n + 1 + i]);
    }
    lemma_digit_run_of(frac, rest);
    assert(after.skip(1 + frac.len() as int) =~= rest);
    assert(whole + seq!['.'] + frac =~= text);
}

/// The literal of a string before whatever follows is read as the string.
pub proof fn lemma_scan_string(text: Seq<char>, rest: Seq<char>)
    ensures
        scan_token(spelling(TokenView::String(text)) + rest) == Ok::<_, LexError>(
            (TokenView::String(text), spelling(TokenView::String(text)).len()),
        ),
{
    let written = spelling(TokenView::String(text));
    let s = written + rest;
    lemma_escaped_text_scans(text, rest);
    assert(s[0] == '"');
    assert(s.drop_first() =~= escaped_text(text) + seq!['"'] + rest);
    assert(Seq::<char>::empty() + text =~= text);
}

/// Whether `token` is an operator or a symbol.
pub open spec fn is_symbol(token: TokenView) -> bool {
    !is_word(token) && !(token is Identifier) && !(token is Integer) && !(token is CFloat) && !(
    token is String) && !(token is Eof)
}

/// An operator or a symbol before a space is read as its token.
pub proof fn lemma_scan_symbol(token: TokenView, rest: Seq<char>)
    requires
        is_symbol(token),
        rest.len() > 0 ==> rest[0] == ' ',
    ensures
        scan_token(spelling(token) + rest) == Ok::<_, LexError>((token, spelling(token).len())),
        spelling(token).len() > 0,
        !is_letter(spelling(token)[0]) && !is_digit(spelling(token)[0]) && spelling(token)[0]
            != ' ',
{
    let written = spelling(token);
    let s = written + rest;
    assert(s[0] == written[0]);
    if written.len() == 1 {
        assert(s.drop_first() =~= rest);
    } else {
        assert(s.drop_first()[0] == written[1]);
    }
}

/// A token that can be written, written before a space, is read back as
/// the token: it takes as many characters as it was written with, and does
/// not start with whitespace.
pub proof fn lemma_scan_spelling(token: TokenView, rest: Seq<char>)
    requires
        spellable(token),
        rest.len() > 0 ==> rest[0] == ' ',
    ensures
        scan_token(spelling(token) + rest) == Ok::<_, LexError>((token, spelling(token).len())),
        spelling(token).len() > 0,
        skip_spaces(spelling(token) + rest) == spelling(token) + rest,
{
    let written = spelling(token);
    let s = written + rest;
    if is_word(token) {
        lemma_words(token);
        lemma_scan_word(token, written, rest);
    } else {
        match token {
            TokenView::Identifier(_) => {
                lemma_scan_word(token, written, rest);
            },
            TokenView::Integer(i) => {
                lemma_scan_integer(i, rest);
            },
            TokenView::CFloat(text) => {
                lemma_scan_float(text, rest);
            },
            TokenView::String(text) => {
                lemma_scan_string(text, rest);
                assert(written[0] == '"');
            },
            _ => {
                lemma_scan_symbol(token, rest);
            },
        }
    }
    assert(s[0] == written[0]);
}

/// Whitespace before a text does not change its tokens.
pub proof fn lemma_lex_after_space(s: Seq<char>)
    ensures
        lex(seq![' '] + s) == lex(s),
{
    let t = seq![' '] + s;
    assert(t.drop_first() =~= s);
    assert(skip_spaces(t) == skip_spaces(s));
}

/// Every token sequence is the lexing of its own spelling: tokens that can
/// be written, written with a space behind each, are read back by the lexer
/// as they were, and then `Eof`.
pub proof fn tokens_are_lexing_of_their_spelling(tokens: Seq<TokenView>, i: nat)
    requires
        forall|k: int| 0 <= k < tokens.len() ==> spellable(#[trigger] tokens[k]),
        i <= tokens.len(),
    ensures
        lex(spelled(tokens, i)) == Ok::<_, LexError>(
            tokens.skip(i as int) + seq![TokenView::Eof],
        ),
    decreases tokens.len() - i,
{
    if i >= tokens.len() {
        assert(tokens.skip(i as int) + seq![TokenView::Eof] =~= seq![TokenView::Eof]);
    } else {
        let token = tokens[i as int];
        let written = spelling(token);
        let more = spelled(tokens, i + 1);
        let rest = seq![' '] + more;
        let s = spelled(tokens, i);
        assert(s =~= written + rest);
        lemma_scan_spelling(token, rest);
        assert(s.skip(written.len() as int) =~= rest);
        lemma_lex_after_space(more);
        tokens_are_lexing_of_their_spelling(tokens, i + 1);
        assert(seq![token] + (tokens.skip((i + 1) as int) + seq![TokenView::Eof]) =~= tokens.skip(
            i as int,
        ) + seq![TokenView::Eof]);
    }
}

} // verus!
