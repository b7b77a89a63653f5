//! What a source text lexes to.
//!
//! [`lex`] gives the tokens of a text, or the first lexical error in it. It
//! reads the text from the left: whitespace is skipped, and each token is the
//! longest that starts where the one before it ended.

use vstd::prelude::*;
use crate::text::{
    decimal_digits, decimal_text, digit_char, digit_value, is_digit, is_ident_char, is_letter,
};
use crate::token::{first_char, ident_run, TokenView};

verus! {

/// Why a text has no token sequence.
#[derive(Debug, Clone, Copy, PartialEq, Eq, Structural)]
pub enum LexError {
    /// The input ended inside a string literal.
    UnterminatedString,
    /// A number with a trailing point, with two points, or too large for
    /// a 64-bit signed integer.
    MalformedNumber,
    /// A character that starts no token, or follows `\` in a string literal
    /// without naming an escape.
    UnexpectedCharacter(char),
}

/// Space, tab, newline and carriage return separate tokens.
pub open spec fn is_space(c: char) -> bool {
    c == ' ' || c == '\t' || c == '\n' || c == '\r'
}

/// `s` without its leading whitespace.
pub open spec fn skip_spaces(s: Seq<char>) -> Seq<char>
    decreases s.len(),
{
    if s.len() > 0 && is_space(s[0]) {
        skip_spaces(s.drop_first())
    } else {
        s
    }
}

/// The longest prefix of `s` made of decimal digits.
pub open spec fn digit_run(s: Seq<char>) -> Seq<char>
    decreases s.len(),
{
    if s.len() > 0 && is_digit(s[0]) {
        seq![s[0]] + digit_run(s.drop_first())
    } else {
        Seq::empty()
    }
}

/// The number that a sequence of digits writes in base ten.
pub open spec fn decimal_value(s: Seq<char>) -> int
    decreases s.len(),
{
    if s.len() == 0 {
        0
    } else {
        10 * decimal_value(s.drop_last()) + digit_value(s.last())
    }
}

/// The value of a digit sequence as a 64-bit signed integer, if it fits.
pub open spec fn checked_decimal(s: Seq<char>) -> Option<i64> {
    if decimal_value(s) <= i64::MAX {
        Some(decimal_value(s) as i64)
    } else {
        None
    }
}

/// A token and the number of characters it takes, or the reason there is none.
pub type Scan = Result<(TokenView, nat), LexError>;

/// The contents of a string literal and the number of characters read.
pub type TextScan = Result<(Seq<char>, nat), LexError>;

/// The number at the start of `s`: one or more digits, optionally a point
/// and more digits. A point must be followed by a digit, and the fraction
/// must not be followed by another point. Without a point the number is an
/// integer, which must fit 64 bits; with one it is a float, given by its
/// text.
pub open spec fn scan_number(s: Seq<char>) -> Scan {
    let whole = digit_run(s);
    let after = s.skip(whole.len() as int);
    if whole.len() == 0 {
        Err(LexError::MalformedNumber)
    } else if first_char(after) == Some('.') {
        let frac = digit_run(after.drop_first());
        let tail = after.skip(1 + frac.len() as int);
        if frac.len() == 0 || first_char(tail) == Some('.') {
            Err(LexError::MalformedNumber)
        } else {
            Ok((TokenView::CFloat(whole + seq!['.'] + frac), whole.len() + 1 + frac.len()))
        }
    } else {
        match checked_decimal(whole) {
            Some(v) => Ok((TokenView::Integer(v), whole.len())),
            None => Err(LexError::MalformedNumber),
        }
    }
}

/// The character that `\` followed by `c` stands for in a string literal.
pub open spec fn unescape(c: char) -> Option<char> {
    if c == 'n' {
        Some('\n')
    } else if c == 't' {
        Some('\t')
    } else if c == '\\' {
        Some('\\')
    } else if c == '"' {
        Some('"')
    } else {
        None
    }
}

/// `r` with `prefix` put before its text and `n` added to its length.
pub open spec fn extend(prefix: Seq<char>, n: nat, r: TextScan) -> TextScan {
    match r {
        Ok((text, m)) => Ok((prefix + text, n + m)),
        Err(e) => Err(e),
    }
}

/// A string literal from behind its opening quote: the text up to the closing
/// quote, escapes replaced, and the number of characters read, the closing
/// quote included.
pub open spec fn scan_string_body(s: Seq<char>) -> TextScan
    decreases s.len(),
{
    if s.len() == 0 {
        Err(LexError::UnterminatedString)
    } else if s[0] == '"' {
        Ok((Seq::empty(), 1))
    } else if s[0] == '\\' {
        if s.len() == 1 {
            Err(LexError::UnterminatedString)
        } else {
            match unescape(s[1]) {
                Some(c) => extend(seq![c], 2, scan_string_body(s.skip(2))),
                None => Err(LexError::UnexpectedCharacter(s[1])),
            }
        }
    } else {
        extend(seq![s[0]], 1, scan_string_body(s.drop_first()))
    }
}

/// A string literal whose opening quote is the first character of `s`.
pub open spec fn scan_string(s: Seq<char>) -> TextScan {
    if s.len() == 0 {
        Err(LexError::UnterminatedString)
    } else {
        extend(Seq::empty(), 1, scan_string_body(s.drop_first()))
    }
}

/// The token a word stands for: a keyword, a boolean literal, or else an
/// identifier.
pub open spec fn word_token(w: Seq<char>) -> TokenView {
    if w == "int"@ {
        TokenView::Int
    } else if w == "float"@ {
        TokenView::Float
    } else if w == "str"@ {
        TokenView::Str
    } else if w == "bool"@ {
        TokenView::Bool
    } else if w == "void"@ {
        TokenView::Void
    } else if w == "if"@ {
        TokenView::If
    } else if w == "else"@ {
        TokenView::Else
    } else if w == "while"@ {
        TokenView::While
    } else if w == "for"@ {
        TokenView::For
    } else if w == "print"@ {
        TokenView::Print
    } else if w == "return"@ {
        TokenView::Return
    } else if w == "true"@ {
        TokenView::Boolean(true)
    } else if w == "false"@ {
        TokenView::Boolean(false)
    } else {
        TokenView::Identifier(w)
    }
}

/// The operator or symbol that starts with `c`, given the character `next`
/// behind it. Two-character operators win over their one-character prefix;
/// `&` and `|` alone are no tokens.
pub open spec fn symbol(c: char, next: Option<char>) -> Option<(TokenView, nat)> {
    if c == '+' {
        Some((TokenView::Plus, 1))
    } else if c == '-' {
        Some((TokenView::Minus, 1))
    } else if c == '*' {
        Some((TokenView::Multiply, 1))
    } else if c == '/' {
        Some((TokenView::Divide, 1))
    } else if c == '%' {
        Some((TokenView::Modulo, 1))
    } else if c == '=' {
        if next == Some('=') {
            Some((TokenView::Equals, 2))
        } else {
            Some((TokenView::Assign, 1))
        }
    } else if c == '!' {
        if next == Some('=') {
            Some((TokenView::NotEquals, 2))
        } else {
            Some((TokenView::Not, 1))
        }
    } else if c == '<' {
        if next == Some('=') {
            Some((TokenView::LessThanOrEqual, 2))
        } else {
            Some((TokenView::LessThan, 1))
        }
    } else if c == '>' {
        if next == Some('=') {
            Some((TokenView::GreaterThanOrEqual, 2))
        } else {
            Some((TokenView::GreaterThan, 1))
        }
    } else if c == '&' {
        if next == Some('&') {
            Some((TokenView::And, 2))
        } else {
            None
        }
    } else if c == '|' {
        if next == Some('|') {
            Some((TokenView::Or, 2))
        } else {
            None
        }
    } else if c == '(' {
        Some((TokenView::LeftParen, 1))
    } else if c == ')' {
        Some((TokenView::RightParen, 1))
    } else if c == '{' {
        Some((TokenView::LeftBrace, 1))
    } else if c == '}' {
        Some((TokenView::RightBrace, 1))
    } else if c == ':' {
        Some((TokenView::Colon, 1))
    } else if c == ';' {
        Some((TokenView::Semicolon, 1))
    } else if c == ',' {
        Some((TokenView::Comma, 1))
    } else {
        None
    }
}

/// The token at the start of `s`, which is not empty and does not start with
/// whitespace.
pub open spec fn scan_token(s: Seq<char>) -> Scan
    recommends
        s.len() > 0,
{
    let c = s[0];
    if is_digit(c) {
        scan_number(s)
    } else if c == '"' {
        match scan_string(s) {
            Ok((text, n)) => Ok((TokenView::String(text), n)),
            Err(e) => Err(e),
        }
    } else if is_letter(c) {
        Ok((word_token(ident_run(s)), ident_run(s).len()))
    } else {
        match symbol(c, first_char(s.drop_first())) {
            Some(found) => Ok(found),
            None => Err(LexError::UnexpectedCharacter(c)),
        }
    }
}

/// The next token of `s` and the text behind it. Behind the last token comes
/// `Eof`, with nothing after it.
pub open spec fn next_token(s: Seq<char>) -> Result<(TokenView, Seq<char>), LexError> {
    let t = skip_spaces(s);
    if t.len() == 0 {
        Ok((TokenView::Eof, t))
    } else {
        match scan_token(t) {
            Ok((token, n)) => Ok((token, t.skip(n as int))),
            Err(e) => Err(e),
        }
    }
}

/// `prefix` put before the tokens of `r`.
pub open spec fn prepend(prefix: Seq<TokenView>, r: Result<Seq<TokenView>, LexError>) -> Result<
    Seq<TokenView>,
    LexError,
> {
    match r {
        Ok(tokens) => Ok(prefix + tokens),
        Err(e) => Err(e),
    }
}

/// The tokens of a source text, in order and closed by `Eof`, or the first
/// lexical error in it.
pub open spec fn lex(s: Seq<char>) -> Result<Seq<TokenView>, LexError>
    decreases s.len(),
{
    let t = skip_spaces(s);
    if t.len() == 0 {
        Ok(seq![TokenView::Eof])
    } else {
        match scan_token(t) {
            Ok((token, n)) => {
                proof {
                    lemma_skip_spaces(s);
                    lemma_scan_token_length(t);
                }
                prepend(seq![token], lex(t.skip(n as int)))
            },
            Err(e) => Err(e),
        }
    }
}

/// Skipping whitespace leaves a suffix.
pub proof fn lemma_skip_spaces(s: Seq<char>)
    ensures
        skip_spaces(s).len() <= s.len(),
        skip_spaces(s) == s.skip(s.len() - skip_spaces(s).len()),
        skip_spaces(s).len() > 0 ==> !is_space(skip_spaces(s)[0]),
    decreases s.len(),
{
    if s.len() > 0 && is_space(s[0]) {
        lemma_skip_spaces(s.drop_first());
        let k = s.drop_first().len() - skip_spaces(s).len();
        assert(s.drop_first().skip(k) =~= s.skip(k + 1));
    } else {
        assert(s.skip(0) =~= s);
    }
}

/// A run of digits is a prefix of the text it is taken from.
pub proof fn lemma_digit_run(s: Seq<char>)
    ensures
        digit_run(s).len() <= s.len(),
        digit_run(s) == s.take(digit_run(s).len() as int),
        forall|i: int| 0 <= i < digit_run(s).len() ==> is_digit(#[trigger] digit_run(s)[i]),
        first_char(s.skip(digit_run(s).len() as int)) matches Some(c) ==> !is_digit(c),
    decreases s.len(),
{
    if s.len() > 0 && is_digit(s[0]) {
        let rest = s.drop_first();
        lemma_digit_run(rest);
        let n = digit_run(rest).len() as int;
        assert(digit_run(s) =~= s.take(n + 1));
        assert(rest.skip(n) =~= s.skip(n + 1));
    } else {
        assert(digit_run(s) =~= s.take(0));
        assert(s.skip(0) =~= s);
    }
}

/// A run of identifier characters is a prefix of the text it is taken from.
pub proof fn lemma_ident_run(s: Seq<char>)
    ensures
        ident_run(s).len() <= s.len(),
        ident_run(s) == s.take(ident_run(s).len() as int),
    decreases s.len(),
{
    if s.len() > 0 && is_ident_char(s[0]) {
        let rest = s.drop_first();
        lemma_ident_run(rest);
        let n = ident_run(rest).len() as int;
        assert(ident_run(s) =~= s.take(n + 1));
    } else {
        assert(ident_run(s) =~= s.take(0));
    }
}

/// A string literal's body takes at least one and at most all of the
/// characters behind the opening quote.
pub proof fn lemma_scan_string_body_length(s: Seq<char>)
    ensures
        scan_string_body(s) matches Ok((_, n)) ==> 1 <= n <= s.len(),
    decreases s.len(),
{
    if s.len() == 0 {
    } else if s[0] == '"' {
    } else if s[0] == '\\' {
        if s.len() > 1 {
            lemma_scan_string_body_length(s.skip(2));
        }
    } else {
        lemma_scan_string_body_length(s.drop_first());
    }
}

/// Every token takes at least one character, and no more than there are.
pub proof fn lemma_scan_token_length(s: Seq<char>)
    requires
        s.len() > 0,
    ensures
        scan_token(s) matches Ok((_, n)) ==> 1 <= n <= s.len(),
{
    let c = s[0];
    if is_digit(c) {
        lemma_digit_run(s);
        let whole = digit_run(s);
        let after = s.skip(whole.len() as int);
        if first_char(after) == Some('.') {
            lemma_digit_run(after.drop_first());
        }
    } else if c == '"' {
        lemma_scan_string_body_length(s.drop_first());
    } else if is_letter(c) {
        lemma_ident_run(s);
    } else {
    }
}

/// `lex` written over [`next_token`]: the first token, then the tokens of
/// the rest.
pub proof fn lemma_lex_unfold(s: Seq<char>)
    ensures
        lex(s) == match next_token(s) {
            Ok((token, rest)) => if token == TokenView::Eof {
                Ok(seq![TokenView::Eof])
            } else {
                prepend(seq![token], lex(rest))
            },
            Err(e) => Err(e),
        },
        next_token(s) matches Ok((token, rest)) ==> rest.len() <= s.len() && (token
            != TokenView::Eof ==> rest.len() < s.len()),
{
    lemma_skip_spaces(s);
    let t = skip_spaces(s);
    if t.len() > 0 {
        lemma_scan_token_length(t);
    }
}

/// Extending by nothing changes nothing.
pub proof fn lemma_extend_nothing(r: TextScan)
    ensures
        extend(Seq::empty(), 0, r) == r,
{
    match r {
        Ok((text, n)) => {
            assert(Seq::<char>::empty() + text =~= text);
        },
        Err(_) => {},
    }
}

/// Extending twice is extending by both at once.
pub proof fn lemma_extend_twice(a: Seq<char>, n: nat, b: Seq<char>, m: nat, r: TextScan)
    ensures
        extend(a, n, extend(b, m, r)) == extend(a + b, n + m, r),
{
    match r {
        Ok((text, k)) => {
            assert(a + (b + text) =~= (a + b) + text);
        },
        Err(_) => {},
    }
}

/// A text made of digits alone is its own run of digits.
pub proof fn lemma_digit_run_of_digits(digits: Seq<char>)
    requires
        forall|i: int| 0 <= i < digits.len() ==> is_digit(#[trigger] digits[i]),
    ensures
        digit_run(digits) == digits,
    decreases digits.len(),
{
    if digits.len() > 0 {
        lemma_digit_run_of_digits(digits.drop_first());
        assert(seq![digits[0]] + digits.drop_first() =~= digits);
    } else {
        assert(digit_run(digits) =~= digits);
    }
}

/// The body of a string literal without quotes and backslashes is read as
/// it stands, up to the closing quote.
pub proof fn lemma_scan_plain_string_body(text: Seq<char>)
    requires
        forall|i: int| 0 <= i < text.len() ==> #[trigger] text[i] != '"' && text[i] != '\\',
    ensures
        scan_string_body(text + seq!['"']) == Ok::<_, LexError>((text, text.len() + 1)),
    decreases text.len(),
{
    let s = text + seq!['"'];
    if text.len() == 0 {
        assert(s[0] == '"');
        assert(text =~= Seq::<char>::empty());
    } else {
        let rest = text.drop_first();
        lemma_scan_plain_string_body(rest);
        assert(s[0] == text[0]);
        assert(s.drop_first() =~= rest + seq!['"']);
        assert(seq![text[0]] + rest =~= text);
    }
}

/// Every integer literal lexes to its own value: a text made of decimal
/// digits alone, whose value fits a 64-bit signed integer, gives the integer
/// token of that value and then `Eof`.
pub proof fn integer_literal_lexes_to_its_value(digits: Seq<char>)
    requires
        digits.len() > 0,
        forall|i: int| 0 <= i < digits.len() ==> is_digit(#[trigger] digits[i]),
        decimal_value(digits) <= i64::MAX,
    ensures
        lex(digits) == Ok::<_, LexError>(
            seq![TokenView::Integer(decimal_value(digits) as i64), TokenView::Eof],
        ),
{
    lemma_digit_run_of_digits(digits);
    assert(is_digit(digits[0]));
    assert(skip_spaces(digits) == digits);
    let after = digits.skip(digits.len() as int);
    assert(after =~= Seq::<char>::empty());
    assert(skip_spaces(after) == after);
    let token = TokenView::Integer(decimal_value(digits) as i64);
    assert(scan_token(digits) == Ok::<_, LexError>((token, digits.len())));
    assert(lex(after) == Ok::<_, LexError>(seq![TokenView::Eof]));
    assert(seq![token] + seq![TokenView::Eof] =~= seq![token, TokenView::Eof]);
}

/// Every string literal without escapes lexes to its own text: for a text
/// that holds neither `"` nor `\`, the text between two quotes gives the
/// string token of that text and then `Eof`.
pub proof fn plain_string_literal_lexes_to_its_text(text: Seq<char>)
    requires
        forall|i: int| 0 <= i < text.len() ==> #[trigger] text[i] != '"' && text[i] != '\\',
    ensures
        lex(seq!['"'] + text + seq!['"']) == Ok::<_, LexError>(
            seq![TokenView::String(text), TokenView::Eof],
        ),
{
    let s = seq!['"'] + text + seq!['"'];
    lemma_scan_plain_string_body(text);
    assert(s[0] == '"');
    assert(skip_spaces(s) == s);
    assert(s.drop_first() =~= text + seq!['"']);
    assert(Seq::<char>::empty() + text =~= text);
    let token = TokenView::String(text);
    assert(scan_token(s) == Ok::<_, LexError>((token, s.len())));
    let after = s.skip(s.len() as int);
    assert(after =~= Seq::<char>::empty());
    assert(skip_spaces(after) == after);
    assert(lex(after) == Ok::<_, LexError>(seq![TokenView::Eof]));
    assert(seq![token] + seq![TokenView::Eof] =~= seq![token, TokenView::Eof]);
}

/// The tokens of a text are never empty: they end in `Eof`, and `Eof`
/// stands nowhere else among them.
pub proof fn lexed_tokens_end_in_one_eof(s: Seq<char>)
    ensures
        lex(s) matches Ok(tokens) ==> tokens.len() > 0 && tokens.last() == TokenView::Eof
            && forall|i: int| 0 <= i < tokens.len() - 1 ==> tokens[i] != TokenView::Eof,
    decreases s.len(),
{
    let t = skip_spaces(s);
    lemma_skip_spaces(s);
    if t.len() > 0 {
        lemma_scan_token_length(t);
        match scan_token(t) {
            Ok((token, n)) => {
                lexed_tokens_end_in_one_eof(t.skip(n as int));
                assert(token != TokenView::Eof);
            },
            Err(_) => {},
        }
    }
}

/// The decimal digits of a number are digits, and write that number.
pub proof fn lemma_decimal_digits(n: nat)
    ensures
        decimal_digits(n).len() > 0,
        forall|i: int| 0 <= i < decimal_digits(n).len() ==> is_digit(#[trigger] decimal_digits(n)[i]),
        decimal_value(decimal_digits(n)) == n,
    decreases n,
{
    let d = (n % 10) as int;
    assert(is_digit(digit_char(d)) && digit_value(digit_char(d)) == d);
    if n < 10 {
        let s = seq![digit_char(n as int)];
        assert(s.drop_last() =~= Seq::<char>::empty());
        assert(decimal_value(s.drop_last()) == 0);
    } else {
        let front = decimal_digits(n / 10);
        lemma_decimal_digits(n / 10);
        let s = front.push(digit_char(d));
        assert(s.drop_last() =~= front);
        assert forall|i: int| 0 <= i < s.len() implies is_digit(#[trigger] s[i]) by {
            if i < front.len() {
                assert(s[i] == front[i]);
            }
        }
    }
}

/// What is printed for an integer that is not negative lexes back to it:
/// the decimal text of such an integer gives the integer token of its value
/// and then `Eof`.
pub proof fn printed_integer_lexes_back(i: i64)
    requires
        i >= 0,
    ensures
        lex(decimal_text(i as int)) == Ok::<_, LexError>(
            seq![TokenView::Integer(i), TokenView::Eof],
        ),
{
    lemma_decimal_digits(i as nat);
    integer_literal_lexes_to_its_value(decimal_digits(i as nat));
}

} // verus!
