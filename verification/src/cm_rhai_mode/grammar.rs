//! The lexical grammar: which token a text begins with, and where the
//! token ends.
//!
//! A text is a sequence of characters, and places in it are indices. The
//! functions here say what the lexer is to find; the lexer is proved to
//! find it.

use vstd::prelude::*;
use crate::cm_rhai_mode::chars::{
    is_alphanumeric,
    is_blank,
    is_digit,
    is_identifier_part,
    is_identifier_start,
    is_letter,
};
use crate::cm_rhai_mode::number::{integer_of, is_radix_digit};
use crate::cm_rhai_mode::token::{LexErrorView, Token, TokenView};

verus! {

/// What is said of `->`.
pub const NOT_ARROW: &'static str = "'->' is not a valid symbol. This is not C or C++!";

/// What is said of `===`.
pub const NOT_TRIPLE_EQUALS: &'static str =
    "'===' is not a valid operator. This is not JavaScript! Should it be '=='?";

/// What is said of `=>`.
pub const NOT_FAT_ARROW: &'static str =
    "'=>' is not a valid symbol. This is not Rust! Should it be '>='?";

/// What is said of `:=`.
pub const NOT_WALRUS: &'static str =
    "':=' is not a valid assignment operator. This is not Pascal! Should it be simply '='?";

/// What is said of `<-`.
pub const NOT_LEFT_ARROW: &'static str = "'<-' is not a valid symbol. Should it be '<='?";

/// What is said of `!==`.
pub const NOT_BANG_DOUBLE_EQUALS: &'static str =
    "'!==' is not a valid operator. This is not JavaScript! Should it be '!='?";

/// The character at `i`, if the text reaches that far.
pub open spec fn at(s: Seq<char>, i: int) -> Option<char> {
    if 0 <= i < s.len() {
        Some(s[i])
    } else {
        None
    }
}

/// The token that a text begins with.
pub struct Scan {
    /// The token.
    pub token: TokenView,
    /// Where the text goes on after the token.
    pub end: int,
    /// The number of block comments that are open at `end`.
    pub level: nat,
    /// The greatest number of block comments that were open at any place
    /// on the way: 0 for a token that is no block comment.
    pub peak: nat,
}

// Block comments

/// Where the scan of a block comment stops, how many comments are open
/// there, and the greatest number that were open at any place on the way.
pub struct CommentScan {
    pub end: int,
    pub level: nat,
    pub peak: nat,
}

/// The scan of a block comment from `i` on, with `level` comments open
/// there. It stops where the last comment closes or the text ends. Every
/// `/*` opens a comment and every `*/` closes one; each is read as a
/// whole.
pub open spec fn comment_scan(s: Seq<char>, i: int, level: nat) -> CommentScan
    decreases s.len() - i,
{
    if level == 0 || i < 0 || i >= s.len() {
        CommentScan { end: i, level, peak: level }
    } else if s[i] == '/' && at(s, i + 1) == Some('*') {
        comment_scan(s, i + 2, level + 1)
    } else if s[i] == '*' && at(s, i + 1) == Some('/') {
        let rest = comment_scan(s, i + 2, (level - 1) as nat);
        CommentScan {
            peak: if rest.peak < level {
                level
            } else {
                rest.peak
            },
            ..rest
        }
    } else {
        comment_scan(s, i + 1, level)
    }
}

/// The greatest number of comments that are open on the way through a
/// block comment is no less than the number open where the scan begins
/// and where it ends, and no more than the number open where it begins
/// and one for every two characters from there on.
pub proof fn lemma_comment_peak(s: Seq<char>, i: int, level: nat)
    requires
        0 <= i <= s.len(),
    ensures
        level <= comment_scan(s, i, level).peak,
        comment_scan(s, i, level).level <= comment_scan(s, i, level).peak,
        comment_scan(s, i, level).peak <= level + (s.len() - i) / 2,
    decreases s.len() - i,
{
    if level > 0 && i < s.len() {
        if s[i] == '/' && at(s, i + 1) == Some('*') {
            lemma_comment_peak(s, i + 2, level + 1);
        } else if s[i] == '*' && at(s, i + 1) == Some('/') {
            lemma_comment_peak(s, i + 2, (level - 1) as nat);
        } else {
            lemma_comment_peak(s, i + 1, level);
        }
    }
}

// String and character literals

/// Where the scan of a quoted literal stops, and what it found: the number
/// of characters that the literal denotes, or what is wrong with it.
pub struct StringScan {
    pub end: int,
    pub result: Result<nat, LexErrorView>,
}

/// The number of hexadecimal digits that a numeric escape takes.
pub open spec fn escape_width(c: char) -> int {
    if c == 'x' {
        2
    } else if c == 'u' {
        4
    } else {
        8
    }
}

/// The number of hexadecimal digits from `i` on, counted up to `n`.
pub open spec fn hex_run(s: Seq<char>, i: int, n: int) -> int
    decreases n,
{
    if n <= 0 || i < 0 || i >= s.len() || !is_radix_digit(s[i], 16) {
        0
    } else {
        1 + hex_run(s, i + 1, n - 1)
    }
}

/// The run of hexadecimal digits is no longer than asked for and stays
/// inside the text; it holds digits only, and where it is shorter than
/// asked for, no digit follows it.
pub proof fn lemma_hex_run_bounds(s: Seq<char>, i: int, n: int)
    requires
        0 <= i <= s.len(),
        0 <= n,
    ensures
        0 <= hex_run(s, i, n) <= n,
        i + hex_run(s, i, n) <= s.len(),
        forall|j: int| i <= j < i + hex_run(s, i, n) ==> is_radix_digit(#[trigger] s[j], 16),
        hex_run(s, i, n) < n && i + hex_run(s, i, n) < s.len() ==> !is_radix_digit(
            s[i + hex_run(s, i, n)],
            16,
        ),
    decreases n,
{
    if n > 0 && i < s.len() && is_radix_digit(s[i], 16) {
        lemma_hex_run_bounds(s, i + 1, n - 1);
    }
}

/// The scan of a quoted literal from `i` on, behind the opening quote.
/// `close` is the closing quote, `escaped` says whether a backslash stands
/// just before `i`, and `count` is the number of characters that the
/// literal denotes so far.
///
/// After a backslash may come another backslash, `t`, `n`, `r`, the
/// closing quote, or `x`, `u` or `U` with two, four or eight hexadecimal
/// digits. The error for a numeric escape that breaks off carries the
/// escape as far as it was read, with the character that is no digit; the
/// error for any other escape carries the backslash alone.
pub open spec fn string_scan(
    s: Seq<char>,
    i: int,
    close: char,
    escaped: bool,
    count: nat,
) -> StringScan
    decreases s.len() - i,
{
    if i < 0 || i >= s.len() {
        StringScan { end: i, result: Err(LexErrorView::UnterminatedString) }
    } else if !escaped {
        if s[i] == '\\' {
            string_scan(s, i + 1, close, true, count)
        } else if s[i] == close {
            StringScan { end: i + 1, result: Ok(count) }
        } else {
            string_scan(s, i + 1, close, false, count + 1)
        }
    } else if s[i] == '\\' || s[i] == 't' || s[i] == 'n' || s[i] == 'r' {
        string_scan(s, i + 1, close, false, count + 1)
    } else if s[i] == 'x' || s[i] == 'u' || s[i] == 'U' {
        let width = escape_width(s[i]);
        let digits = hex_run(s, i + 1, width);
        proof {
            lemma_hex_run_bounds(s, i + 1, width);
        }
        if digits == width {
            string_scan(s, i + 1 + width, close, false, count + 1)
        } else {
            let end = if i + 1 + digits < s.len() {
                i + 2 + digits
            } else {
                i + 1 + digits
            };
            StringScan {
                end,
                result: Err(
                    LexErrorView::MalformedEscapeSequence(seq!['\\'] + s.subrange(i, end)),
                ),
            }
        }
    } else if s[i] == close {
        string_scan(s, i + 1, close, false, count + 1)
    } else {
        StringScan {
            end: i + 1,
            result: Err(LexErrorView::MalformedEscapeSequence(seq!['\\'])),
        }
    }
}

/// The string literal whose opening quote stands at `i`.
pub open spec fn string_at(s: Seq<char>, i: int) -> Scan {
    let scan = string_scan(s, i + 1, '"', false, 0);
    Scan {
        token: match scan.result {
            Ok(_) => TokenView::Plain(Token::StringConstant),
            Err(error) => TokenView::Error(error),
        },
        end: scan.end,
        level: 0,
        peak: 0,
    }
}

/// The character literal whose opening quote stands at `i`. It must
/// denote exactly one character. Two quotes in a row are a literal without
/// a character, which is an error.
pub open spec fn char_at(s: Seq<char>, i: int) -> Scan {
    if at(s, i + 1) == Some('\'') {
        Scan { token: TokenView::Error(LexErrorView::MalformedChar), end: i + 2, level: 0, peak: 0 }
    } else {
        let scan = string_scan(s, i + 1, '\'', false, 0);
        Scan {
            token: match scan.result {
                Ok(count) => if count == 1 {
                    TokenView::Plain(Token::CharConstant)
                } else {
                    TokenView::Error(LexErrorView::MalformedChar)
                },
                Err(error) => TokenView::Error(error),
            },
            end: scan.end,
            level: 0,
            peak: 0,
        }
    }
}

// Numbers

/// The base that a letter behind a leading `0` announces.
pub open spec fn radix_of(c: char) -> Option<u32> {
    if c == 'x' || c == 'X' {
        Some(16u32)
    } else if c == 'o' || c == 'O' {
        Some(8u32)
    } else if c == 'b' || c == 'B' {
        Some(2u32)
    } else {
        None
    }
}

/// Where the run of digits of base `radix` and underscores from `i` on
/// ends.
pub open spec fn digits_end(s: Seq<char>, i: int, radix: int) -> int
    decreases s.len() - i,
{
    if 0 <= i < s.len() && (is_radix_digit(s[i], radix) || s[i] == '_') {
        digits_end(s, i + 1, radix)
    } else {
        i
    }
}

/// A run of digits ends at or behind its start, inside the text. It is
/// the longest there is: it holds digits of the base and underscores
/// only, and none follows it.
pub proof fn lemma_digits_end_bounds(s: Seq<char>, i: int, radix: int)
    requires
        0 <= i <= s.len(),
    ensures
        i <= digits_end(s, i, radix) <= s.len(),
        forall|k: int|
            i <= k < digits_end(s, i, radix) ==> #[trigger] s[k] == '_' || is_radix_digit(
                s[k],
                radix,
            ),
        digits_end(s, i, radix) < s.len() ==> !(s[digits_end(s, i, radix)] == '_'
            || is_radix_digit(s[digits_end(s, i, radix)], radix)),
    decreases s.len() - i,
{
    if i < s.len() && (is_radix_digit(s[i], radix) || s[i] == '_') {
        lemma_digits_end_bounds(s, i + 1, radix);
    }
}

/// Where a literal in decimal notation ends that goes on at `i`: behind
/// its decimal digits and underscores, and behind every `.` with the
/// decimal digits and underscores after it.
pub open spec fn decimal_end(s: Seq<char>, i: int) -> int
    decreases s.len() - i,
{
    if i < 0 || i >= s.len() {
        i
    } else if is_digit(s[i]) || s[i] == '_' {
        decimal_end(s, i + 1)
    } else if s[i] == '.' {
        proof {
            lemma_digits_end_bounds(s, i + 1, 10);
        }
        decimal_end(s, digits_end(s, i + 1, 10))
    } else {
        i
    }
}

/// A literal in decimal notation ends at or behind the place where it goes
/// on, inside the text.
pub proof fn lemma_decimal_end_bounds(s: Seq<char>, i: int)
    requires
        0 <= i <= s.len(),
    ensures
        i <= decimal_end(s, i) <= s.len(),
    decreases s.len() - i,
{
    if i < s.len() {
        if is_digit(s[i]) || s[i] == '_' {
            lemma_decimal_end_bounds(s, i + 1);
        } else if s[i] == '.' {
            lemma_digits_end_bounds(s, i + 1, 10);
            lemma_decimal_end_bounds(s, digits_end(s, i + 1, 10));
        }
    }
}

/// Whether `text` is a floating-point literal in decimal notation: digits
/// and underscores, at least one digit, and at most one `.`.
pub open spec fn is_float_text(text: Seq<char>) -> bool {
    &&& forall|k: int|
        0 <= k < text.len() ==> is_digit(#[trigger] text[k]) || text[k] == '_' || text[k] == '.'
    &&& exists|k: int| 0 <= k < text.len() && is_digit(#[trigger] text[k])
    &&& forall|j: int, k: int|
        0 <= j < k < text.len() ==> !(#[trigger] text[j] == '.' && #[trigger] text[k] == '.')
}

/// `text` with its sign.
pub open spec fn signed(text: Seq<char>, negated: bool) -> Seq<char> {
    if negated {
        seq!['-'] + text
    } else {
        text
    }
}

/// What the text of a numeric literal is. With a base, the digits behind
/// the two characters that announce it must spell an integer in range.
/// Without one, the text is an integer if it spells one in range, and a
/// floating-point number if it has that shape.
pub open spec fn number_token(text: Seq<char>, negated: bool, radix: Option<u32>) -> TokenView {
    match radix {
        Some(base) => {
            if integer_of(text.skip(2), negated, base as int) is Some {
                TokenView::Plain(Token::IntegerConstant)
            } else {
                TokenView::Error(LexErrorView::MalformedNumber(signed(text, negated)))
            }
        },
        None => {
            if integer_of(text, negated, 10) is Some {
                TokenView::Plain(Token::IntegerConstant)
            } else if is_float_text(text) {
                TokenView::Plain(Token::FloatConstant)
            } else {
                TokenView::Error(LexErrorView::MalformedNumber(signed(text, negated)))
            }
        },
    }
}

/// The base of the numeric literal whose first digit stands at `i`, where
/// the literal announces one: a `0` with a base letter right behind it.
pub open spec fn base_at(s: Seq<char>, i: int) -> Option<u32> {
    if s[i] == '0' && at(s, i + 1) is Some {
        radix_of(s[i + 1])
    } else {
        None
    }
}

/// The numeric literal whose first digit stands at `i`. Behind a `0` and
/// a base letter come the digits of that base and underscores, and nothing
/// else. Any other literal is in decimal notation.
pub open spec fn number_at(s: Seq<char>, i: int, negated: bool) -> Scan {
    let end = match base_at(s, i) {
        Some(base) => digits_end(s, i + 2, base as int),
        None => decimal_end(s, i + 1),
    };
    Scan { token: number_token(s.subrange(i, end), negated, base_at(s, i)), end, level: 0, peak: 0 }
}

// Identifiers and keywords

/// Where the run of letters, digits and underscores from `i` on ends.
pub open spec fn identifier_end(s: Seq<char>, i: int) -> int
    decreases s.len() - i,
{
    if 0 <= i < s.len() && is_identifier_part(s[i]) {
        identifier_end(s, i + 1)
    } else {
        i
    }
}

/// A run of letters, digits and underscores ends at or behind its start,
/// inside the text. It is the longest there is: it holds such characters
/// only, and none follows it.
pub proof fn lemma_identifier_end_bounds(s: Seq<char>, i: int)
    requires
        0 <= i <= s.len(),
    ensures
        i <= identifier_end(s, i) <= s.len(),
        forall|k: int| i <= k < identifier_end(s, i) ==> is_identifier_part(#[trigger] s[k]),
        identifier_end(s, i) < s.len() ==> !is_identifier_part(s[identifier_end(s, i)]),
    decreases s.len() - i,
{
    if i < s.len() && is_identifier_part(s[i]) {
        lemma_identifier_end_bounds(s, i + 1);
    }
}

/// Whether the first letter or digit of `text` is a letter.
pub open spec fn is_valid_identifier(text: Seq<char>) -> bool {
    exists|k: int|
        0 <= k < text.len() && is_letter(#[trigger] text[k]) && forall|j: int|
            0 <= j < k ==> !is_alphanumeric(#[trigger] text[j])
}

/// The keyword that `text` spells, or `Identifier`.
pub open spec fn word(text: Seq<char>) -> Token {
    if text == "true"@ {
        Token::True
    } else if text == "false"@ {
        Token::False
    } else if text == "let"@ {
        Token::Let
    } else if text == "const"@ {
        Token::Const
    } else if text == "if"@ {
        Token::If
    } else if text == "else"@ {
        Token::Else
    } else if text == "while"@ {
        Token::While
    } else if text == "loop"@ {
        Token::Loop
    } else if text == "continue"@ {
        Token::Continue
    } else if text == "break"@ {
        Token::Break
    } else if text == "return"@ {
        Token::Return
    } else if text == "throw"@ {
        Token::Throw
    } else if text == "for"@ {
        Token::For
    } else if text == "in"@ {
        Token::In
    } else if text == "private"@ {
        Token::Private
    } else if text == "import"@ {
        Token::Import
    } else if text == "export"@ {
        Token::Export
    } else if text == "as"@ {
        Token::As
    } else if text == "fn"@ {
        Token::Fn
    } else {
        Token::Identifier
    }
}

/// What the text of an identifier or keyword is.
pub open spec fn word_token(text: Seq<char>) -> TokenView {
    if is_valid_identifier(text) {
        TokenView::Plain(word(text))
    } else {
        TokenView::Error(LexErrorView::MalformedIdentifier(text))
    }
}

/// The identifier or keyword that begins at `i`.
pub open spec fn word_at(s: Seq<char>, i: int) -> Scan {
    let end = identifier_end(s, i + 1);
    Scan { token: word_token(s.subrange(i, end)), end, level: 0, peak: 0 }
}

// Operators and punctuation

/// A symbol, and the number of characters that are read for it.
pub struct Symbol {
    pub token: TokenView,
    pub width: int,
}

/// The symbol `token`, read over `width` characters.
pub open spec fn plain(token: Token, width: int) -> Option<Symbol> {
    Some(Symbol { token: TokenView::Plain(token), width })
}

/// The error for a symbol of another language, read over `width`
/// characters.
pub open spec fn improper(message: &str, width: int) -> Option<Symbol> {
    Some(Symbol { token: TokenView::Error(LexErrorView::ImproperSymbol(message@)), width })
}

/// The bracket, operator or punctuation mark that begins at `i`, if one
/// does. The longest symbol wins. A symbol of another language that looks
/// like one of this language is an error, and all of it is read: `->`,
/// `=>`, `:=`, `<-`, `===` and `!==`. `unary` says whether a sign is a
/// prefix here.
pub open spec fn symbol_at(s: Seq<char>, i: int, unary: bool) -> Option<Symbol> {
    let c = s[i];
    let next = at(s, i + 1);
    let third = at(s, i + 2);
    if c == '{' {
        plain(Token::LeftBrace, 1)
    } else if c == '}' {
        plain(Token::RightBrace, 1)
    } else if c == '(' {
        plain(Token::LeftParen, 1)
    } else if c == ')' {
        plain(Token::RightParen, 1)
    } else if c == '[' {
        plain(Token::LeftBracket, 1)
    } else if c == ']' {
        plain(Token::RightBracket, 1)
    } else if c == '#' {
        if next == Some('{') {
            plain(Token::MapStart, 2)
        } else {
            None
        }
    } else if c == '+' {
        if next == Some('=') {
            plain(Token::PlusAssign, 2)
        } else if unary {
            plain(Token::UnaryPlus, 1)
        } else {
            plain(Token::Plus, 1)
        }
    } else if c == '-' {
        if next is Some && is_digit(next.unwrap()) {
            plain(Token::Minus, 1)
        } else if next == Some('=') {
            plain(Token::MinusAssign, 2)
        } else if next == Some('>') {
            improper(NOT_ARROW, 2)
        } else if unary {
            plain(Token::UnaryMinus, 1)
        } else {
            plain(Token::Minus, 1)
        }
    } else if c == '*' {
        if next == Some('=') {
            plain(Token::MultiplyAssign, 2)
        } else {
            plain(Token::Multiply, 1)
        }
    } else if c == '/' {
        if next == Some('=') {
            plain(Token::DivideAssign, 2)
        } else {
            plain(Token::Divide, 1)
        }
    } else if c == ';' {
        plain(Token::SemiColon, 1)
    } else if c == ',' {
        plain(Token::Comma, 1)
    } else if c == '.' {
        plain(Token::Period, 1)
    } else if c == '=' {
        if next == Some('=') {
            if third == Some('=') {
                improper(NOT_TRIPLE_EQUALS, 3)
            } else {
                plain(Token::EqualsTo, 2)
            }
        } else if next == Some('>') {
            improper(NOT_FAT_ARROW, 2)
        } else {
            plain(Token::Equals, 1)
        }
    } else if c == ':' {
        if next == Some(':') {
            plain(Token::DoubleColon, 2)
        } else if next == Some('=') {
            improper(NOT_WALRUS, 2)
        } else {
            plain(Token::Colon, 1)
        }
    } else if c == '<' {
        if next == Some('=') {
            plain(Token::LessThanEqualsTo, 2)
        } else if next == Some('-') {
            improper(NOT_LEFT_ARROW, 2)
        } else if next == Some('<') {
            if third == Some('=') {
                plain(Token::LeftShiftAssign, 3)
            } else {
                plain(Token::LeftShift, 2)
            }
        } else {
            plain(Token::LessThan, 1)
        }
    } else if c == '>' {
        if next == Some('=') {
            plain(Token::GreaterThanEqualsTo, 2)
        } else if next == Some('>') {
            if third == Some('=') {
                plain(Token::RightShiftAssign, 3)
            } else {
                plain(Token::RightShift, 2)
            }
        } else {
            plain(Token::GreaterThan, 1)
        }
    } else if c == '!' {
        if next == Some('=') {
            if third == Some('=') {
                improper(NOT_BANG_DOUBLE_EQUALS, 3)
            } else {
                plain(Token::NotEqualsTo, 2)
            }
        } else {
            plain(Token::Bang, 1)
        }
    } else if c == '|' {
        if next == Some('|') {
            plain(Token::Or, 2)
        } else if next == Some('=') {
            plain(Token::OrAssign, 2)
        } else {
            plain(Token::Pipe, 1)
        }
    } else if c == '&' {
        if next == Some('&') {
            plain(Token::And, 2)
        } else if next == Some('=') {
            plain(Token::AndAssign, 2)
        } else {
            plain(Token::Ampersand, 1)
        }
    } else if c == '^' {
        if next == Some('=') {
            plain(Token::XOrAssign, 2)
        } else {
            plain(Token::XOr, 1)
        }
    } else if c == '%' {
        if next == Some('=') {
            plain(Token::ModuloAssign, 2)
        } else {
            plain(Token::Modulo, 1)
        }
    } else if c == '~' {
        if next == Some('=') {
            plain(Token::PowerOfAssign, 2)
        } else {
            plain(Token::PowerOf, 1)
        }
    } else {
        None
    }
}

// Tokens

/// The token that begins at `i`, if the character there begins one.
/// A minus sign before a digit is part of the number where a sign is a
/// prefix. `//` begins a comment that runs to the end of the text, `/*`
/// one that runs to its `*/`.
pub open spec fn token_at(s: Seq<char>, i: int, unary: bool) -> Option<Scan> {
    let c = s[i];
    let next = at(s, i + 1);
    if is_digit(c) {
        Some(number_at(s, i, false))
    } else if is_identifier_start(c) {
        Some(word_at(s, i))
    } else if c == '"' {
        Some(string_at(s, i))
    } else if c == '\'' {
        Some(char_at(s, i))
    } else if c == '-' && unary && next is Some && is_digit(next.unwrap()) {
        Some(number_at(s, i + 1, true))
    } else if c == '/' && next == Some('/') {
        Some(Scan { token: TokenView::Plain(Token::LineComment), end: s.len() as int, level: 0, peak: 0 })
    } else if c == '/' && next == Some('*') {
        let scan = comment_scan(s, i + 2, 1);
        Some(
            Scan {
                token: TokenView::Plain(Token::BlockComment),
                end: scan.end,
                level: scan.level,
                peak: scan.peak,
            },
        )
    } else {
        match symbol_at(s, i, unary) {
            Some(symbol) => Some(Scan { token: symbol.token, end: i + symbol.width, level: 0, peak: 0 }),
            None => None,
        }
    }
}

/// The first token from `i` on, outside any comment. Line breaks are
/// passed over, and so is white space that begins no token. At the end
/// of the text stands `EOF`; a character that begins no token and is no
/// white space is an error by itself.
pub open spec fn lex_from(s: Seq<char>, i: int, unary: bool) -> Scan
    decreases s.len() - i,
{
    if i < 0 || i >= s.len() {
        Scan { token: TokenView::Plain(Token::EOF), end: i, level: 0, peak: 0 }
    } else if s[i] == '\n' {
        lex_from(s, i + 1, unary)
    } else {
        match token_at(s, i, unary) {
            Some(scan) => scan,
            None => {
                if is_blank(s[i]) {
                    lex_from(s, i + 1, unary)
                } else {
                    Scan {
                        token: TokenView::Error(LexErrorView::UnexpectedChar(s[i])),
                        end: i + 1,
                        level: 0,
                        peak: 0,
                    }
                }
            },
        }
    }
}

/// The next token of the text `s`, where `level` block comments are open
/// at its start and `unary` says whether a sign would be a prefix there.
/// Inside a comment, the token is the comment as far as it goes.
pub open spec fn lex(s: Seq<char>, unary: bool, level: nat) -> Scan {
    if level > 0 {
        let scan = comment_scan(s, 0, level);
        Scan {
            token: TokenView::Plain(Token::BlockComment),
            end: scan.end,
            level: scan.level,
            peak: scan.peak,
        }
    } else {
        lex_from(s, 0, unary)
    }
}

} // verus!
