//! Tokens, lexical errors, and the state that the lexer keeps between calls.

use vstd::prelude::*;
use vstd::string::StringExecFns;
use crate::cm_rhai_mode::chars::{
    blank,
    digit,
    identifier_part,
    is_alphanumeric,
    is_digit,
    is_letter,
    letter,
    spells,
    string_of,
};
use crate::cm_rhai_mode::grammar::{
    NOT_ARROW,
    NOT_BANG_DOUBLE_EQUALS,
    NOT_FAT_ARROW,
    NOT_LEFT_ARROW,
    NOT_TRIPLE_EQUALS,
    NOT_WALRUS,
    at,
    base_at,
    comment_scan,
    decimal_end,
    digits_end,
    hex_run,
    identifier_end,
    is_float_text,
    is_valid_identifier,
    lemma_comment_peak,
    lemma_digits_end_bounds,
    lemma_hex_run_bounds,
    lex,
    lex_from,
    number_at,
    number_token,
    radix_of,
    signed,
    string_scan,
    symbol_at,
    word_at,
    word_token,
};
use crate::cm_rhai_mode::laws::{lemma_lex_advances, lemma_lex_peak};
use crate::cm_rhai_mode::number::{digits_of, parse_integer, push_decimal, to_digit};
use crate::codemirror::StringStream;

verus! {

/// The smallest classified units of a script.
#[derive(Debug, PartialEq, Clone)]
pub enum Token {
    IntegerConstant,
    FloatConstant,
    Identifier,
    CharConstant,
    StringConstant,
    LeftBrace,
    RightBrace,
    LeftParen,
    RightParen,
    LeftBracket,
    RightBracket,
    Plus,
    UnaryPlus,
    Minus,
    UnaryMinus,
    Multiply,
    Divide,
    Modulo,
    PowerOf,
    LeftShift,
    RightShift,
    SemiColon,
    Colon,
    DoubleColon,
    Comma,
    Period,
    MapStart,
    Equals,
    True,
    False,
    Let,
    Const,
    If,
    Else,
    While,
    Loop,
    For,
    In,
    LessThan,
    GreaterThan,
    LessThanEqualsTo,
    GreaterThanEqualsTo,
    EqualsTo,
    NotEqualsTo,
    Bang,
    Pipe,
    Or,
    XOr,
    Ampersand,
    And,
    Fn,
    Continue,
    Break,
    Return,
    Throw,
    PlusAssign,
    MinusAssign,
    MultiplyAssign,
    DivideAssign,
    LeftShiftAssign,
    RightShiftAssign,
    AndAssign,
    OrAssign,
    XOrAssign,
    ModuloAssign,
    PowerOfAssign,
    Private,
    Import,
    Export,
    As,
    LineComment,
    BlockComment,
    LexError(Box<LexError>),
    EOF,
}

/// Why a span of text is no token.
#[derive(Debug, Eq, PartialEq, Clone, Hash)]
#[non_exhaustive]
pub enum LexError {
    /// A character that begins no token.
    UnexpectedChar(char),
    /// A string literal that the line ends before.
    UnterminatedString,
    /// A string literal longer than the limit.
    StringTooLong(usize),
    /// An escape sequence that is not one, with what was read of it.
    MalformedEscapeSequence(String),
    /// A numeric literal that spells no number, with its text.
    MalformedNumber(String),
    /// A character literal that does not hold exactly one character.
    MalformedChar,
    /// An identifier without a letter in front, with its text.
    MalformedIdentifier(String),
    /// A symbol of another language, with what to say about it.
    ImproperSymbol(String),
}

/// A lexical error as contracts speak of it: texts are sequences of
/// characters.
pub enum LexErrorView {
    UnexpectedChar(char),
    UnterminatedString,
    StringTooLong(usize),
    MalformedEscapeSequence(Seq<char>),
    MalformedNumber(Seq<char>),
    MalformedChar,
    MalformedIdentifier(Seq<char>),
    ImproperSymbol(Seq<char>),
}

impl View for LexError {
    type V = LexErrorView;

    open spec fn view(&self) -> LexErrorView {
        match *self {
            LexError::UnexpectedChar(c) => LexErrorView::UnexpectedChar(c),
            LexError::UnterminatedString => LexErrorView::UnterminatedString,
            LexError::StringTooLong(limit) => LexErrorView::StringTooLong(limit),
            LexError::MalformedEscapeSequence(text) => LexErrorView::MalformedEscapeSequence(text@),
            LexError::MalformedNumber(text) => LexErrorView::MalformedNumber(text@),
            LexError::MalformedChar => LexErrorView::MalformedChar,
            LexError::MalformedIdentifier(text) => LexErrorView::MalformedIdentifier(text@),
            LexError::ImproperSymbol(text) => LexErrorView::ImproperSymbol(text@),
        }
    }
}

impl LexErrorView {
    /// The diagnostic for a reader.
    pub open spec fn message(self) -> Seq<char> {
        match self {
            LexErrorView::UnexpectedChar(c) => "Unexpected '"@ + seq![c] + "'"@,
            LexErrorView::UnterminatedString => "Open string is not terminated"@,
            LexErrorView::StringTooLong(limit) => {
                "Length of string literal exceeds the maximum limit ("@ + digits_of(
                    limit as nat,
                    10,
                ) + ")"@
            },
            LexErrorView::MalformedEscapeSequence(text) => {
                "Invalid escape sequence: '"@ + text + "'"@
            },
            LexErrorView::MalformedNumber(text) => "Invalid number: '"@ + text + "'"@,
            LexErrorView::MalformedChar => "Invalid character: '?'"@,
            LexErrorView::MalformedIdentifier(text) => {
                "Variable name is not proper: '"@ + text + "'"@
            },
            LexErrorView::ImproperSymbol(text) => text,
        }
    }
}

impl LexError {
    /// The diagnostic for a reader.
    pub fn message(&self) -> (text: String)
        ensures
            text@ == self@.message(),
    {
        match self {
            LexError::UnexpectedChar(c) => {
                let mut text = String::from_str("Unexpected '");
                text.push(*c);
                text.append("'");
                text
            },
            LexError::UnterminatedString => String::from_str("Open string is not terminated"),
            LexError::StringTooLong(limit) => {
                let mut text = String::from_str(
                    "Length of string literal exceeds the maximum limit (",
                );
                push_decimal(&mut text, *limit);
                text.append(")");
                text
            },
            LexError::MalformedEscapeSequence(s) => quoted("Invalid escape sequence: '", s),
            LexError::MalformedNumber(s) => quoted("Invalid number: '", s),
            LexError::MalformedChar => String::from_str("Invalid character: '?'"),
            LexError::MalformedIdentifier(s) => quoted("Variable name is not proper: '", s),
            LexError::ImproperSymbol(s) => s.clone(),
        }
    }
}

/// `lead`, then `text` and a closing quote.
fn quoted(lead: &str, text: &String) -> (r: String)
    ensures
        r@ == lead@ + text@ + "'"@,
{
    let mut r = String::from_str(lead);
    r.append(text.as_str());
    r.append("'");
    r
}

/// A token as contracts speak of it: an error by its view, any other token
/// as it is.
pub enum TokenView {
    Plain(Token),
    Error(LexErrorView),
}

impl View for Token {
    type V = TokenView;

    open spec fn view(&self) -> TokenView {
        match *self {
            Token::LexError(error) => TokenView::Error(error@),
            token => TokenView::Plain(token),
        }
    }
}

impl Token {
    /// `{`, `(` and `[`.
    pub open spec fn is_opening(self) -> bool {
        self is LeftBrace || self is LeftParen || self is LeftBracket
    }

    /// `}`, `)` and `]`.
    pub open spec fn is_closing(self) -> bool {
        self is RightBrace || self is RightParen || self is RightBracket
    }

    /// Integer and floating-point constants.
    pub open spec fn is_number(self) -> bool {
        self is IntegerConstant || self is FloatConstant
    }

    /// The two comment markers.
    pub open spec fn is_comment(self) -> bool {
        self is LineComment || self is BlockComment
    }

    /// `true` and `false`.
    pub open spec fn is_builtin(self) -> bool {
        self is True || self is False
    }

    /// The reserved words but `true` and `false`.
    pub open spec fn is_keyword(self) -> bool {
        ||| self is Let
        ||| self is Const
        ||| self is If
        ||| self is Else
        ||| self is While
        ||| self is Loop
        ||| self is For
        ||| self is In
        ||| self is Fn
        ||| self is Continue
        ||| self is Break
        ||| self is Return
        ||| self is Throw
        ||| self is Private
        ||| self is Import
        ||| self is Export
        ||| self is As
    }

    /// The keywords that an expression follows.
    pub open spec fn takes_operand(self) -> bool {
        self is If || self is While || self is Return || self is Throw || self is In
    }

    /// The separators that no operand follows: `;` and `::`.
    pub open spec fn is_separator(self) -> bool {
        self is SemiColon || self is DoubleColon
    }

    /// Operators and punctuation: what is no literal, name, bracket, word,
    /// comment, error or end of stream.
    pub open spec fn is_operator(self) -> bool {
        &&& !self.is_number()
        &&& !(self is Identifier)
        &&& !(self is CharConstant)
        &&& !(self is StringConstant)
        &&& !self.is_opening()
        &&& !self.is_closing()
        &&& !(self is MapStart)
        &&& !self.is_builtin()
        &&& !self.is_keyword()
        &&& !self.is_comment()
        &&& !(self is LexError)
        &&& !(self is EOF)
    }

    /// Whether a sign after this token is a prefix: after an error, an
    /// opening bracket, a comment, a keyword that takes an operand, and
    /// any operator but a separator.
    pub open spec fn next_is_unary(self) -> bool {
        ||| self is LexError
        ||| self.is_opening()
        ||| self.is_comment()
        ||| self.takes_operand()
        ||| (self.is_operator() && !self.is_separator())
    }

    /// If another operator is after this token, it is probably a unary
    /// operator.
    pub fn is_next_unary(&self) -> (b: bool)
        ensures
            b == self.next_is_unary(),
    {
        match self {
            Token::LexError(_)
            | Token::LeftBrace
            | Token::LeftParen
            | Token::LeftBracket
            | Token::Plus
            | Token::UnaryPlus
            | Token::Minus
            | Token::UnaryMinus
            | Token::Multiply
            | Token::Divide
            | Token::Colon
            | Token::Comma
            | Token::Period
            | Token::Equals
            | Token::LessThan
            | Token::GreaterThan
            | Token::Bang
            | Token::LessThanEqualsTo
            | Token::GreaterThanEqualsTo
            | Token::EqualsTo
            | Token::NotEqualsTo
            | Token::Pipe
            | Token::Or
            | Token::Ampersand
            | Token::And
            | Token::If
            | Token::While
            | Token::PlusAssign
            | Token::MinusAssign
            | Token::MultiplyAssign
            | Token::DivideAssign
            | Token::LeftShiftAssign
            | Token::RightShiftAssign
            | Token::AndAssign
            | Token::OrAssign
            | Token::XOrAssign
            | Token::LeftShift
            | Token::RightShift
            | Token::XOr
            | Token::Modulo
            | Token::ModuloAssign
            | Token::Return
            | Token::Throw
            | Token::PowerOf
            | Token::In
            | Token::PowerOfAssign => true,
            Token::LineComment => true,
            Token::BlockComment => true,
            _ => false,
        }
    }
}

impl TokenView {
    /// Whether a sign after this token is a prefix.
    pub open spec fn next_is_unary(self) -> bool {
        match self {
            TokenView::Plain(token) => token.next_is_unary(),
            TokenView::Error(_) => true,
        }
    }
}

/// What the lexer is in the middle of, between two calls.
#[derive(Clone, Copy, Debug, PartialEq, Eq)]
pub enum InBetweenToken {
    Nothing,
    /// A block comment, with the number of openers not yet closed.
    BlockComment(u32),
}

/// What the lexer keeps from one call to the next.
#[derive(Clone, Copy, Debug)]
pub struct State {
    can_be_unary: bool,
    in_between_token: InBetweenToken,
}

impl State {
    #[verifier::type_invariant]
    spec fn well_formed(self) -> bool {
        self.in_between_token matches InBetweenToken::BlockComment(level) ==> level > 0
    }

    /// Whether a sign that comes next is a prefix.
    pub closed spec fn unary(&self) -> bool {
        self.can_be_unary
    }

    /// The number of block comments that are open: 0 outside any comment.
    pub closed spec fn level(&self) -> nat {
        match self.in_between_token {
            InBetweenToken::Nothing => 0,
            InBetweenToken::BlockComment(level) => level as nat,
        }
    }

    /// The state at the start of a session: a sign would be a prefix, and
    /// no comment is open.
    pub fn new() -> (state: Self)
        ensures
            state.unary(),
            state.level() == 0,
    {
        State { can_be_unary: true, in_between_token: InBetweenToken::Nothing }
    }

    /// Whether a sign that comes next is a prefix.
    pub fn can_be_unary(&self) -> (b: bool)
        ensures
            b == self.unary(),
    {
        self.can_be_unary
    }

    /// What the lexer is in the middle of.
    pub fn in_between_token(&self) -> (t: InBetweenToken)
        ensures
            t == (if self.level() == 0 {
                InBetweenToken::Nothing
            } else {
                InBetweenToken::BlockComment(self.level() as u32)
            }),
            self.level() <= u32::MAX,
    {
        proof {
            use_type_invariant(self);
        }
        self.in_between_token
    }
}

/// Reads one character.
fn take(stream: &mut StringStream, Ghost(start): Ghost<StringStream>, Ghost(i): Ghost<int>) -> (c:
    Option<char>)
    requires
        old(stream).has_read(start, i),
    ensures
        c == at(start.remaining(), i),
        final(stream).has_read(
            start,
            if c is Some {
                i + 1
            } else {
                i
            },
        ),
{
    let c = stream.get_next();
    proof {
        let s = start.remaining();
        if i < s.len() {
            assert(s.skip(i)[0] == s[i]);
            assert(s.skip(i).skip(1) =~= s.skip(i + 1));
        }
    }
    c
}

/// The character that would be read next.
fn look(stream: &StringStream, Ghost(start): Ghost<StringStream>, Ghost(i): Ghost<int>) -> (c:
    Option<char>)
    requires
        stream.has_read(start, i),
    ensures
        c == at(start.remaining(), i),
{
    let c = stream.peek_next();
    proof {
        let s = start.remaining();
        if i < s.len() {
            assert(s.skip(i)[0] == s[i]);
        }
    }
    c
}

/// Reads on in a block comment with `level` comments open, and returns
/// how many are open where the reading stops.
fn scan_comment(
    stream: &mut StringStream,
    level: u32,
    Ghost(start): Ghost<StringStream>,
    Ghost(from): Ghost<int>,
) -> (open: u32)
    requires
        old(stream).has_read(start, from),
        level >= 1,
        comment_scan(start.remaining(), from, level as nat).peak <= u32::MAX,
    ensures
        open == comment_scan(start.remaining(), from, level as nat).level,
        final(stream).has_read(start, comment_scan(start.remaining(), from, level as nat).end),
{
    let ghost s = start.remaining();
    let mut open = level;
    let ghost mut i = from;
    loop
        invariant
            stream.has_read(start, i),
            s == start.remaining(),
            open >= 1,
            comment_scan(s, i, open as nat).peak <= u32::MAX,
            comment_scan(s, from, level as nat).end == comment_scan(s, i, open as nat).end,
            comment_scan(s, from, level as nat).level == comment_scan(s, i, open as nat).level,
        decreases s.len() - i,
    {
        let c = match take(stream, Ghost(start), Ghost(i)) {
            Some(c) => c,
            None => {
                return open;
            },
        };
        if c == '/' && take_if(stream, '*', Ghost(start), Ghost(i + 1)) {
            proof {
                lemma_comment_peak(s, i + 2, (open + 1) as nat);
                i = i + 2;
            }
            open = open + 1;
        } else if c == '*' && take_if(stream, '/', Ghost(start), Ghost(i + 1)) {
            open = open - 1;
            proof {
                i = i + 2;
            }
        } else {
            proof {
                i = i + 1;
            }
        }
        assert(comment_scan(s, from, level as nat).end == comment_scan(s, i, open as nat).end);
        if open == 0 {
            return 0;
        }
    }
}

/// The hexadecimal digits of a numeric escape: reads up to `width` of
/// them behind the backslash and the letter, which `escape` holds, and
/// appends what it reads. False where the digits break off.
fn scan_escape_digits(
    stream: &mut StringStream,
    escape: &mut Vec<char>,
    width: u8,
    Ghost(start): Ghost<StringStream>,
    Ghost(from): Ghost<int>,
) -> (complete: bool)
    requires
        old(stream).has_read(start, from),
        width <= 8,
    ensures
        ({
            let s = start.remaining();
            let digits = hex_run(s, from, width as int);
            let end = if digits < width && from + digits < s.len() {
                from + digits + 1
            } else {
                from + digits
            };
            &&& complete == (digits == width)
            &&& final(stream).has_read(start, end)
            &&& final(escape)@ == old(escape)@ + s.subrange(from, end)
        }),
{
    let ghost s = start.remaining();
    let mut k: u8 = 0;
    proof {
        lemma_hex_run_bounds(s, from, width as int);
        assert(s.subrange(from, from) =~= Seq::<char>::empty());
        assert(escape@ =~= old(escape)@ + s.subrange(from, from));
    }
    while k < width
        invariant
            s == start.remaining(),
            0 <= from,
            0 <= k <= width <= 8,
            stream.has_read(start, from + k),
            escape@ == old(escape)@ + s.subrange(from, from + k),
            hex_run(s, from, width as int) == k + hex_run(s, from + k, width - k),
        decreases width - k,
    {
        let c = match take(stream, Ghost(start), Ghost(from + k)) {
            Some(c) => c,
            None => {
                return false;
            },
        };
        escape.push(c);
        proof {
            assert(s.subrange(from, from + k + 1) =~= s.subrange(from, from + k).push(c));
            assert(escape@ =~= old(escape)@ + s.subrange(from, from + k + 1));
        }
        if to_digit(c, 16).is_none() {
            return false;
        }
        k = k + 1;
    }
    true
}

/// Reads a quoted literal behind its opening quote, up to and with the
/// closing quote, and counts the characters that it denotes.
fn scan_string(
    stream: &mut StringStream,
    close: char,
    Ghost(start): Ghost<StringStream>,
    Ghost(from): Ghost<int>,
) -> (r: Result<usize, (LexError, ())>)
    requires
        old(stream).has_read(start, from),
        start.remaining().len() <= usize::MAX,
    ensures
        ({
            let scan = string_scan(start.remaining(), from, close, false, 0);
            &&& final(stream).has_read(start, scan.end)
            &&& match r {
                Ok(count) => scan.result == Ok::<nat, LexErrorView>(count as nat),
                Err((error, _)) => scan.result == Err::<nat, LexErrorView>(error@),
            }
        }),
{
    let ghost s = start.remaining();
    let mut count: usize = 0;
    let mut escaped = false;
    let ghost mut i = from;
    loop
        invariant
            stream.has_read(start, i),
            s == start.remaining(),
            s.len() <= usize::MAX,
            0 <= from <= i,
            count <= i - from,
            string_scan(s, from, close, false, 0) == string_scan(
                s,
                i,
                close,
                escaped,
                count as nat,
            ),
        decreases s.len() - i,
    {
        let c = match take(stream, Ghost(start), Ghost(i)) {
            Some(c) => c,
            None => {
                return Err((LexError::UnterminatedString, ()));
            },
        };
        if !escaped {
            if c == '\\' {
                escaped = true;
            } else if c == close {
                return Ok(count);
            } else {
                count = count + 1;
            }
            proof {
                i = i + 1;
            }
        } else if c == '\\' || c == 't' || c == 'n' || c == 'r' {
            escaped = false;
            count = count + 1;
            proof {
                i = i + 1;
            }
        } else if c == 'x' || c == 'u' || c == 'U' {
            let width: u8 = if c == 'x' {
                2
            } else if c == 'u' {
                4
            } else {
                8
            };
            let mut escape: Vec<char> = Vec::new();
            escape.push('\\');
            escape.push(c);
            let complete = scan_escape_digits(
                stream,
                &mut escape,
                width,
                Ghost(start),
                Ghost(i + 1),
            );
            proof {
                lemma_hex_run_bounds(s, i + 1, width as int);
            }
            if !complete {
                proof {
                    let digits = hex_run(s, i + 1, width as int);
                    let end = if i + 1 + digits < s.len() {
                        i + 2 + digits
                    } else {
                        i + 1 + digits
                    };
                    assert(escape@ =~= seq!['\\'] + s.subrange(i, end));
                }
                return Err((LexError::MalformedEscapeSequence(string_of(&escape)), ()));
            }
            escaped = false;
            count = count + 1;
            proof {
                i = i + 1 + width;
            }
        } else if c == close {
            escaped = false;
            count = count + 1;
            proof {
                i = i + 1;
            }
        } else {
            let mut escape: Vec<char> = Vec::new();
            escape.push('\\');
            return Err((LexError::MalformedEscapeSequence(string_of(&escape)), ()));
        }
    }
}

/// Reads a string or character literal behind its opening quote, up to
/// and with the closing quote `enclosing_char`, and returns the number of
/// characters that the literal denotes.
pub fn parse_string_literal(stream: &mut StringStream, enclosing_char: char) -> (r: Result<
    usize,
    (LexError, ()),
>)
    ensures
        ({
            let scan = string_scan(old(stream).remaining(), 0, enclosing_char, false, 0);
            &&& final(stream).has_read(*old(stream), scan.end)
            &&& match r {
                Ok(count) => scan.result == Ok::<nat, LexErrorView>(count as nat),
                Err((error, _)) => scan.result == Err::<nat, LexErrorView>(error@),
            }
        }),
{
    let ghost start = *stream;
    proof {
        use_type_invariant(&*stream);
        start.lemma_bounds();
        assert(start.remaining().skip(0) =~= start.remaining());
    }
    scan_string(stream, enclosing_char, Ghost(start), Ghost(0))
}

/// Whether `text` has the shape of a floating-point literal.
fn is_float(text: &Vec<char>) -> (b: bool)
    ensures
        b == is_float_text(text@),
{
    let mut seen_digit = false;
    let mut seen_dot = false;
    let ghost mut dot: int = 0;
    let mut i: usize = 0;
    while i < text.len()
        invariant
            0 <= i <= text.len(),
            forall|k: int|
                0 <= k < i ==> is_digit(#[trigger] text@[k]) || text@[k] == '_' || text@[k] == '.',
            seen_digit == (exists|k: int| 0 <= k < i && is_digit(#[trigger] text@[k])),
            seen_dot ==> 0 <= dot < i && text@[dot] == '.',
            !seen_dot ==> forall|k: int| 0 <= k < i ==> #[trigger] text@[k] != '.',
            forall|j: int, k: int|
                0 <= j < k < i ==> !(#[trigger] text@[j] == '.' && #[trigger] text@[k] == '.'),
        decreases text.len() - i,
    {
        let c = text[i];
        if digit(c) {
            seen_digit = true;
        } else if c == '.' {
            if seen_dot {
                assert(text@[dot] == '.' && text@[i as int] == '.');
                return false;
            }
            seen_dot = true;
            proof {
                dot = i as int;
            }
        } else if c != '_' {
            assert(!(is_digit(text@[i as int]) || text@[i as int] == '_' || text@[i as int] == '.'));
            return false;
        }
        i = i + 1;
    }
    seen_digit
}

/// The error for a numeric literal that spells no number.
fn malformed_number(text: &Vec<char>, negated: bool) -> (token: Token)
    ensures
        token@ == TokenView::Error(LexErrorView::MalformedNumber(signed(text@, negated))),
{
    let mut message = String::new();
    if negated {
        message.push('-');
    }
    let digits = string_of(text);
    message.append(digits.as_str());
    assert(message@ =~= signed(text@, negated));
    Token::LexError(Box::new(LexError::MalformedNumber(message)))
}

/// What the text of a numeric literal is.
fn classify_number(text: &Vec<char>, negated: bool, radix: Option<u32>) -> (token: Token)
    requires
        radix matches Some(base) ==> 2 <= base <= 16 && text.len() >= 2,
    ensures
        token@ == number_token(text@, negated, radix),
{
    match radix {
        Some(base) => {
            if parse_integer(text, 2, negated, base).is_some() {
                Token::IntegerConstant
            } else {
                malformed_number(text, negated)
            }
        },
        None => {
            assert(text@.skip(0) =~= text@);
            if parse_integer(text, 0, negated, 10).is_some() {
                Token::IntegerConstant
            } else if is_float(text) {
                Token::FloatConstant
            } else {
                malformed_number(text, negated)
            }
        },
    }
}

/// The base that a letter behind a leading `0` announces.
fn base_of(c: char) -> (r: Option<u32>)
    ensures
        r == radix_of(c),
{
    if c == 'x' || c == 'X' {
        Some(16)
    } else if c == 'o' || c == 'O' {
        Some(8)
    } else if c == 'b' || c == 'B' {
        Some(2)
    } else {
        None
    }
}

/// Reads the run of digits of base `radix` and underscores, and appends
/// it to `text`, which holds what was read from `origin` on.
fn scan_digits(
    stream: &mut StringStream,
    text: &mut Vec<char>,
    radix: u32,
    Ghost(start): Ghost<StringStream>,
    Ghost(origin): Ghost<int>,
    Ghost(from): Ghost<int>,
)
    requires
        old(stream).has_read(start, from),
        0 <= origin <= from,
        old(text)@ == start.remaining().subrange(origin, from),
    ensures
        final(stream).has_read(start, digits_end(start.remaining(), from, radix as int)),
        final(text)@ == start.remaining().subrange(
            origin,
            digits_end(start.remaining(), from, radix as int),
        ),
{
    let ghost s = start.remaining();
    let ghost mut i = from;
    loop
        invariant
            s == start.remaining(),
            stream.has_read(start, i),
            0 <= origin <= from <= i,
            text@ == s.subrange(origin, i),
            digits_end(s, from, radix as int) == digits_end(s, i, radix as int),
        decreases s.len() - i,
    {
        let c = match look(stream, Ghost(start), Ghost(i)) {
            Some(c) => c,
            None => {
                return ;
            },
        };
        if c == '_' || to_digit(c, radix).is_some() {
            text.push(c);
            let _ = take(stream, Ghost(start), Ghost(i));
            proof {
                assert(s.subrange(origin, i + 1) =~= s.subrange(origin, i).push(c));
                i = i + 1;
            }
        } else {
            return ;
        }
    }
}

/// Reads a numeric literal behind its first digit, and says what it is.
fn scan_number(
    stream: &mut StringStream,
    first: char,
    negated: bool,
    Ghost(start): Ghost<StringStream>,
    Ghost(from): Ghost<int>,
) -> (token: Token)
    requires
        old(stream).has_read(start, from + 1),
        0 <= from,
        start.remaining()[from] == first,
    ensures
        final(stream).has_read(start, number_at(start.remaining(), from, negated).end),
        token@ == number_at(start.remaining(), from, negated).token,
{
    let ghost s = start.remaining();
    let mut text: Vec<char> = Vec::new();
    text.push(first);
    assert(text@ =~= s.subrange(from, from + 1));
    if first == '0' {
        let base = match look(stream, Ghost(start), Ghost(from + 1)) {
            Some(c) => base_of(c),
            None => None,
        };
        if let Some(base) = base {
            if let Some(letter) = take(stream, Ghost(start), Ghost(from + 1)) {
                text.push(letter);
                assert(text@ =~= s.subrange(from, from + 2));
                scan_digits(stream, &mut text, base, Ghost(start), Ghost(from), Ghost(from + 2));
                proof {
                    lemma_digits_end_bounds(s, from + 2, base as int);
                }
                return classify_number(&text, negated, Some(base));
            }
        }
    }
    let ghost mut i = from + 1;
    loop
        invariant
            s == start.remaining(),
            stream.has_read(start, i),
            0 <= from < i,
            base_at(s, from) is None,
            text@ == s.subrange(from, i),
            decimal_end(s, from + 1) == decimal_end(s, i),
        decreases s.len() - i,
    {
        let c = match look(stream, Ghost(start), Ghost(i)) {
            Some(c) => c,
            None => {
                return classify_number(&text, negated, None);
            },
        };
        if digit(c) || c == '_' {
            text.push(c);
            let _ = take(stream, Ghost(start), Ghost(i));
            proof {
                assert(s.subrange(from, i + 1) =~= s.subrange(from, i).push(c));
                i = i + 1;
            }
        } else if c == '.' {
            text.push(c);
            let _ = take(stream, Ghost(start), Ghost(i));
            proof {
                assert(s.subrange(from, i + 1) =~= s.subrange(from, i).push(c));
                lemma_digits_end_bounds(s, i + 1, 10);
            }
            scan_digits(stream, &mut text, 10, Ghost(start), Ghost(from), Ghost(i + 1));
            proof {
                i = digits_end(s, i + 1, 10);
            }
        } else {
            return classify_number(&text, negated, None);
        }
    }
}

/// What the text of an identifier or keyword is.
fn classify_word(text: &Vec<char>) -> (token: Token)
    ensures
        token@ == word_token(text@),
{
    let mut valid = false;
    let mut i: usize = 0;
    while i < text.len()
        invariant_except_break
            !valid,
            forall|j: int| 0 <= j < i ==> !is_alphanumeric(#[trigger] text@[j]),
        invariant
            0 <= i <= text.len(),
        ensures
            valid == is_valid_identifier(text@),
        decreases text.len() - i,
    {
        let c = text[i];
        if letter(c) {
            valid = true;
            assert(is_letter(text@[i as int]));
            break ;
        } else if digit(c) {
            assert(is_alphanumeric(text@[i as int]));
            break ;
        }
        i = i + 1;
    }
    if !valid {
        return Token::LexError(Box::new(LexError::MalformedIdentifier(string_of(text))));
    }
    if spells(text, "true") {
        Token::True
    } else if spells(text, "false") {
        Token::False
    } else if spells(text, "let") {
        Token::Let
    } else if spells(text, "const") {
        Token::Const
    } else if spells(text, "if") {
        Token::If
    } else if spells(text, "else") {
        Token::Else
    } else if spells(text, "while") {
        Token::While
    } else if spells(text, "loop") {
        Token::Loop
    } else if spells(text, "continue") {
        Token::Continue
    } else if spells(text, "break") {
        Token::Break
    } else if spells(text, "return") {
        Token::Return
    } else if spells(text, "throw") {
        Token::Throw
    } else if spells(text, "for") {
        Token::For
    } else if spells(text, "in") {
        Token::In
    } else if spells(text, "private") {
        Token::Private
    } else if spells(text, "import") {
        Token::Import
    } else if spells(text, "export") {
        Token::Export
    } else if spells(text, "as") {
        Token::As
    } else if spells(text, "fn") {
        Token::Fn
    } else {
        Token::Identifier
    }
}

/// Reads an identifier or keyword behind its first character, and says
/// what it is.
fn scan_word(
    stream: &mut StringStream,
    first: char,
    Ghost(start): Ghost<StringStream>,
    Ghost(from): Ghost<int>,
) -> (token: Token)
    requires
        old(stream).has_read(start, from + 1),
        0 <= from,
        start.remaining()[from] == first,
    ensures
        final(stream).has_read(start, word_at(start.remaining(), from).end),
        token@ == word_at(start.remaining(), from).token,
{
    let ghost s = start.remaining();
    let mut text: Vec<char> = Vec::new();
    text.push(first);
    let ghost mut i = from + 1;
    assert(text@ =~= s.subrange(from, from + 1));
    loop
        invariant
            s == start.remaining(),
            stream.has_read(start, i),
            0 <= from < i,
            text@ == s.subrange(from, i),
            identifier_end(s, from + 1) == identifier_end(s, i),
        decreases s.len() - i,
    {
        let c = match look(stream, Ghost(start), Ghost(i)) {
            Some(c) => c,
            None => {
                return classify_word(&text);
            },
        };
        if identifier_part(c) {
            text.push(c);
            let _ = take(stream, Ghost(start), Ghost(i));
            proof {
                assert(s.subrange(from, i + 1) =~= s.subrange(from, i).push(c));
                i = i + 1;
            }
        } else {
            return classify_word(&text);
        }
    }
}

/// Whether the character that would be read next is `c`.
fn follows(
    stream: &StringStream,
    c: char,
    Ghost(start): Ghost<StringStream>,
    Ghost(i): Ghost<int>,
) -> (b: bool)
    requires
        stream.has_read(start, i),
    ensures
        b == (at(start.remaining(), i) == Some(c)),
{
    match look(stream, Ghost(start), Ghost(i)) {
        Some(next) => next == c,
        None => false,
    }
}

/// Reads the next character if it is `c`.
fn take_if(
    stream: &mut StringStream,
    c: char,
    Ghost(start): Ghost<StringStream>,
    Ghost(i): Ghost<int>,
) -> (taken: bool)
    requires
        old(stream).has_read(start, i),
    ensures
        taken == (at(start.remaining(), i) == Some(c)),
        final(stream).has_read(
            start,
            if taken {
                i + 1
            } else {
                i
            },
        ),
{
    if follows(stream, c, Ghost(start), Ghost(i)) {
        let _ = take(stream, Ghost(start), Ghost(i));
        true
    } else {
        false
    }
}

/// The error for a symbol of another language.
fn improper(message: &str) -> (token: Token)
    ensures
        token@ == TokenView::Error(LexErrorView::ImproperSymbol(message@)),
{
    Token::LexError(Box::new(LexError::ImproperSymbol(String::from_str(message))))
}

/// Reads a bracket, an operator or a punctuation mark behind its first
/// character `c`, if `c` begins one.
fn scan_symbol(
    stream: &mut StringStream,
    c: char,
    unary: bool,
    Ghost(start): Ghost<StringStream>,
    Ghost(from): Ghost<int>,
) -> (r: Option<Token>)
    requires
        old(stream).has_read(start, from + 1),
        0 <= from,
        start.remaining()[from] == c,
    ensures
        match symbol_at(start.remaining(), from, unary) {
            Some(symbol) => {
                &&& r matches Some(token) && token@ == symbol.token
                &&& final(stream).has_read(start, from + symbol.width)
            },
            None => r is None && final(stream).has_read(start, from + 1),
        },
{
    let ghost i = from + 1;
    let token = match c {
        '{' => Token::LeftBrace,
        '}' => Token::RightBrace,
        '(' => Token::LeftParen,
        ')' => Token::RightParen,
        '[' => Token::LeftBracket,
        ']' => Token::RightBracket,
        '#' => {
            if take_if(stream, '{', Ghost(start), Ghost(i)) {
                Token::MapStart
            } else {
                return None;
            }
        },
        '+' => {
            if take_if(stream, '=', Ghost(start), Ghost(i)) {
                Token::PlusAssign
            } else if unary {
                Token::UnaryPlus
            } else {
                Token::Plus
            }
        },
        '-' => {
            let before_digit = match look(stream, Ghost(start), Ghost(i)) {
                Some(next) => digit(next),
                None => false,
            };
            if before_digit {
                Token::Minus
            } else if take_if(stream, '=', Ghost(start), Ghost(i)) {
                Token::MinusAssign
            } else if take_if(stream, '>', Ghost(start), Ghost(i)) {
                improper(NOT_ARROW)
            } else if unary {
                Token::UnaryMinus
            } else {
                Token::Minus
            }
        },
        '*' => {
            if take_if(stream, '=', Ghost(start), Ghost(i)) {
                Token::MultiplyAssign
            } else {
                Token::Multiply
            }
        },
        '/' => {
            if take_if(stream, '=', Ghost(start), Ghost(i)) {
                Token::DivideAssign
            } else {
                Token::Divide
            }
        },
        ';' => Token::SemiColon,
        ',' => Token::Comma,
        '.' => Token::Period,
        '=' => {
            if take_if(stream, '=', Ghost(start), Ghost(i)) {
                if take_if(stream, '=', Ghost(start), Ghost(i + 1)) {
                    improper(NOT_TRIPLE_EQUALS)
                } else {
                    Token::EqualsTo
                }
            } else if take_if(stream, '>', Ghost(start), Ghost(i)) {
                improper(NOT_FAT_ARROW)
            } else {
                Token::Equals
            }
        },
        ':' => {
            if take_if(stream, ':', Ghost(start), Ghost(i)) {
                Token::DoubleColon
            } else if take_if(stream, '=', Ghost(start), Ghost(i)) {
                improper(NOT_WALRUS)
            } else {
                Token::Colon
            }
        },
        '<' => {
            if take_if(stream, '=', Ghost(start), Ghost(i)) {
                Token::LessThanEqualsTo
            } else if take_if(stream, '-', Ghost(start), Ghost(i)) {
                improper(NOT_LEFT_ARROW)
            } else if take_if(stream, '<', Ghost(start), Ghost(i)) {
                if take_if(stream, '=', Ghost(start), Ghost(i + 1)) {
                    Token::LeftShiftAssign
                } else {
                    Token::LeftShift
                }
            } else {
                Token::LessThan
            }
        },
        '>' => {
            if take_if(stream, '=', Ghost(start), Ghost(i)) {
                Token::GreaterThanEqualsTo
            } else if take_if(stream, '>', Ghost(start), Ghost(i)) {
                if take_if(stream, '=', Ghost(start), Ghost(i + 1)) {
                    Token::RightShiftAssign
                } else {
                    Token::RightShift
                }
            } else {
                Token::GreaterThan
            }
        },
        '!' => {
            if take_if(stream, '=', Ghost(start), Ghost(i)) {
                if take_if(stream, '=', Ghost(start), Ghost(i + 1)) {
                    improper(NOT_BANG_DOUBLE_EQUALS)
                } else {
                    Token::NotEqualsTo
                }
            } else {
                Token::Bang
            }
        },
        '|' => {
            if take_if(stream, '|', Ghost(start), Ghost(i)) {
                Token::Or
            } else if take_if(stream, '=', Ghost(start), Ghost(i)) {
                Token::OrAssign
            } else {
                Token::Pipe
            }
        },
        '&' => {
            if take_if(stream, '&', Ghost(start), Ghost(i)) {
                Token::And
            } else if take_if(stream, '=', Ghost(start), Ghost(i)) {
                Token::AndAssign
            } else {
                Token::Ampersand
            }
        },
        '^' => {
            if take_if(stream, '=', Ghost(start), Ghost(i)) {
                Token::XOrAssign
            } else {
                Token::XOr
            }
        },
        '%' => {
            if take_if(stream, '=', Ghost(start), Ghost(i)) {
                Token::ModuloAssign
            } else {
                Token::Modulo
            }
        },
        '~' => {
            if take_if(stream, '=', Ghost(start), Ghost(i)) {
                Token::PowerOfAssign
            } else {
                Token::PowerOf
            }
        },
        _ => {
            return None;
        },
    };
    Some(token)
}

/// The next token, with the lexer's state as it stands but for the
/// comments that are open.
fn next_token_inner(state: &mut State, stream: &mut StringStream) -> (r: Option<(Token, ())>)
    requires
        lex(old(stream).remaining(), old(state).unary(), old(state).level()).peak <= u32::MAX,
    ensures
        ({
            let scan = lex(old(stream).remaining(), old(state).unary(), old(state).level());
            &&& r matches Some((token, _)) && token@ == scan.token
            &&& final(stream).has_read(*old(stream), scan.end)
            &&& final(state).level() == scan.level
            &&& final(state).unary() == old(state).unary()
        }),
{
    let ghost start = *stream;
    let ghost s = start.remaining();
    proof {
        use_type_invariant(&*stream);
        use_type_invariant(&*state);
        start.lemma_bounds();
        assert(s.skip(0) =~= s);
    }
    if let InBetweenToken::BlockComment(level) = state.in_between_token {
        let open = scan_comment(stream, level, Ghost(start), Ghost(0));
        state.in_between_token = if open != 0 {
            InBetweenToken::BlockComment(open)
        } else {
            InBetweenToken::Nothing
        };
        return Some((Token::BlockComment, ()));
    }
    let unary = state.can_be_unary;
    let ghost mut i: int = 0;
    loop
        invariant
            start == *old(stream),
            s == start.remaining(),
            s.len() <= usize::MAX,
            lex_from(s, 0, unary).peak <= u32::MAX,
            stream.has_read(start, i),
            *state == *old(state),
            state.level() == 0,
            unary == state.unary(),
            lex_from(s, 0, unary) == lex_from(s, i, unary),
        decreases s.len() - i,
    {
        let c = match take(stream, Ghost(start), Ghost(i)) {
            Some(c) => c,
            None => {
                return Some((Token::EOF, ()));
            },
        };
        if c == '\n' {
            proof {
                i = i + 1;
            }
            continue ;
        }
        let next = look(stream, Ghost(start), Ghost(i + 1));
        let token = if digit(c) {
            scan_number(stream, c, false, Ghost(start), Ghost(i))
        } else if letter(c) || c == '_' {
            scan_word(stream, c, Ghost(start), Ghost(i))
        } else if c == '"' {
            match scan_string(stream, '"', Ghost(start), Ghost(i + 1)) {
                Ok(_) => Token::StringConstant,
                Err((error, _)) => Token::LexError(Box::new(error)),
            }
        } else if c == '\'' {
            if take_if(stream, '\'', Ghost(start), Ghost(i + 1)) {
                Token::LexError(Box::new(LexError::MalformedChar))
            } else {
                match scan_string(stream, '\'', Ghost(start), Ghost(i + 1)) {
                    Ok(count) => {
                        if count == 1 {
                            Token::CharConstant
                        } else {
                            Token::LexError(Box::new(LexError::MalformedChar))
                        }
                    },
                    Err((error, _)) => Token::LexError(Box::new(error)),
                }
            }
        } else if c == '-' && unary && is_some_digit(next) {
            match take(stream, Ghost(start), Ghost(i + 1)) {
                Some(first) => scan_number(stream, first, true, Ghost(start), Ghost(i + 1)),
                None => Token::Minus,
            }
        } else if c == '/' && is_some(next, '/') {
            stream.skip_to_end();
            assert(s.skip(s.len() as int) =~= Seq::<char>::empty());
            Token::LineComment
        } else if c == '/' && is_some(next, '*') {
            let _ = take(stream, Ghost(start), Ghost(i + 1));
            let open = scan_comment(stream, 1, Ghost(start), Ghost(i + 2));
            if open != 0 {
                state.in_between_token = InBetweenToken::BlockComment(open);
            }
            Token::BlockComment
        } else {
            match scan_symbol(stream, c, unary, Ghost(start), Ghost(i)) {
                Some(token) => token,
                None => {
                    if blank(c) {
                        proof {
                            i = i + 1;
                        }
                        continue ;
                    }
                    Token::LexError(Box::new(LexError::UnexpectedChar(c)))
                },
            }
        };
        return Some((token, ()));
    }
}

/// Whether `next` is the character `c`.
fn is_some(next: Option<char>, c: char) -> (b: bool)
    ensures
        b == (next == Some(c)),
{
    match next {
        Some(found) => found == c,
        None => false,
    }
}

/// Whether `next` is a digit.
fn is_some_digit(next: Option<char>) -> (b: bool)
    ensures
        b == (next is Some && is_digit(next.unwrap())),
{
    match next {
        Some(found) => digit(found),
        None => false,
    }
}

/// The next token of the stream. Reads exactly the characters of the
/// token and what is passed over before it, and brings the state up to
/// date: whether a sign after this token is a prefix, and how many block
/// comments are open.
pub fn next_token(state: &mut State, stream: &mut StringStream) -> (r: Option<(Token, ())>)
    requires
        lex(old(stream).remaining(), old(state).unary(), old(state).level()).peak <= u32::MAX,
    ensures
        ({
            let scan = lex(old(stream).remaining(), old(state).unary(), old(state).level());
            &&& r matches Some((token, _)) && token@ == scan.token
            &&& final(stream).has_read(*old(stream), scan.end)
            &&& final(state).level() == scan.level
            &&& final(state).unary() == scan.token.next_is_unary()
        }),
        old(stream).remaining().len() > 0 ==> final(stream).remaining().len() < old(
            stream,
        ).remaining().len(),
{
    let result = next_token_inner(state, stream);
    proof {
        use_type_invariant(&*state);
        lemma_lex_advances(old(stream).remaining(), old(state).unary(), old(state).level());
    }
    if let Some((token, _)) = &result {
        state.can_be_unary = token.is_next_unary();
    }
    result
}

/// Whether reading a token is sure to stay within what the counter of
/// comments holds, whatever the text: the comments that are open and the
/// code units that are left together are a number of 32 bits.
pub open spec fn surely_reads(level: nat, units_left: int) -> bool {
    level + units_left <= u32::MAX
}

/// Reads the next token as `next_token` does, where that is sure to stay
/// within what the counter of comments holds, and does nothing where it is
/// not.
pub fn checked_next_token(state: &mut State, stream: &mut StringStream) -> (r: Option<
    Option<(Token, ())>,
>)
    ensures
        ({
            let scan = lex(old(stream).remaining(), old(state).unary(), old(state).level());
            let sure = surely_reads(
                old(state).level(),
                old(stream).units().len() - old(stream).position(),
            );
            match r {
                Some(result) => {
                    &&& sure
                    &&& result matches Some((token, _)) && token@ == scan.token
                    &&& final(stream).has_read(*old(stream), scan.end)
                    &&& final(state).level() == scan.level
                    &&& final(state).unary() == scan.token.next_is_unary()
                },
                None => !sure && *final(state) == *old(state) && *final(stream) == *old(stream),
            }
        }),
{
    proof {
        use_type_invariant(&*stream);
        use_type_invariant(&*state);
        stream.lemma_bounds();
        lemma_lex_peak(stream.remaining(), state.unary(), state.level());
    }
    let level: u32 = match state.in_between_token {
        InBetweenToken::BlockComment(level) => level,
        InBetweenToken::Nothing => 0,
    };
    if stream.len() - stream.pos() <= (u32::MAX - level) as usize {
        Some(next_token(state, stream))
    } else {
        None
    }
}

} // verus!
