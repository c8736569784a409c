use rhai_mode::cm_rhai_mode::token::{
    checked_next_token, next_token, parse_string_literal, InBetweenToken, LexError, State, Token,
};
use rhai_mode::codemirror::StringStream;

fn stream(text: &str) -> StringStream {
    StringStream::new(text.encode_utf16().collect(), 0)
}

/// The tokens of one line, from a fresh state.
fn lex_line(text: &str) -> Vec<Token> {
    let mut stream = stream(text);
    let mut state = State::new();
    let mut tokens = Vec::new();
    loop {
        let (token, _) = next_token(&mut state, &mut stream).unwrap();
        if token == Token::EOF {
            assert!(stream.eol());
            return tokens;
        }
        tokens.push(token);
    }
}

fn error(e: LexError) -> Token {
    Token::LexError(Box::new(e))
}

fn improper(message: &str) -> Token {
    error(LexError::ImproperSymbol(message.to_string()))
}

#[test]
fn new_state_expects_a_prefix_sign_outside_any_comment() {
    let state = State::new();
    assert!(state.can_be_unary());
    assert_eq!(state.in_between_token(), InBetweenToken::Nothing);
}

#[test]
fn empty_line_is_the_end_of_the_stream() {
    assert_eq!(lex_line(""), vec![]);
    let mut s = stream("");
    let mut state = State::new();
    assert_eq!(next_token(&mut state, &mut s), Some((Token::EOF, ())));
    assert_eq!(s.pos(), 0);
}

#[test]
fn white_space_and_line_breaks_are_passed_over() {
    assert_eq!(lex_line("  \t x \n y\u{a0}"), vec![Token::Identifier, Token::Identifier]);
    let mut s = stream("   ");
    let mut state = State::new();
    assert_eq!(next_token(&mut state, &mut s), Some((Token::EOF, ())));
    assert_eq!(s.pos(), 3);
}

#[test]
fn block_comment_spans_two_calls() {
    let mut state = State::new();
    let mut first = stream("/* a");
    assert_eq!(next_token(&mut state, &mut first), Some((Token::BlockComment, ())));
    assert_eq!(state.in_between_token(), InBetweenToken::BlockComment(1));
    assert!(first.eol());
    let mut second = stream("b */");
    assert_eq!(next_token(&mut state, &mut second), Some((Token::BlockComment, ())));
    assert_eq!(state.in_between_token(), InBetweenToken::Nothing);
    assert!(second.eol());
}

#[test]
fn block_comment_closes_on_the_same_line() {
    assert_eq!(lex_line("/* a */ x"), vec![Token::BlockComment, Token::Identifier]);
    let mut s = stream("/* a */ x");
    let mut state = State::new();
    assert_eq!(next_token(&mut state, &mut s), Some((Token::BlockComment, ())));
    assert_eq!(s.pos(), 7);
    assert_eq!(state.in_between_token(), InBetweenToken::Nothing);
    assert!(state.can_be_unary());
}

#[test]
fn block_comments_nest() {
    let mut state = State::new();
    let mut first = stream("/* a /* b");
    assert_eq!(next_token(&mut state, &mut first), Some((Token::BlockComment, ())));
    assert_eq!(state.in_between_token(), InBetweenToken::BlockComment(2));
    let mut second = stream("c */ d");
    assert_eq!(next_token(&mut state, &mut second), Some((Token::BlockComment, ())));
    assert_eq!(state.in_between_token(), InBetweenToken::BlockComment(1));
    assert!(second.eol());
    let mut third = stream("*/ x");
    assert_eq!(next_token(&mut state, &mut third), Some((Token::BlockComment, ())));
    assert_eq!(state.in_between_token(), InBetweenToken::Nothing);
    assert_eq!(third.pos(), 2);
    assert_eq!(next_token(&mut state, &mut third), Some((Token::Identifier, ())));
}

#[test]
fn every_opener_and_closer_counts() {
    assert_eq!(lex_line("/**/"), vec![Token::BlockComment]);
    assert_eq!(lex_line("/***/"), vec![Token::BlockComment]);
    assert_eq!(lex_line("/* **/ x"), vec![Token::BlockComment, Token::Identifier]);
    assert_eq!(lex_line("/* //* */ */ x"), vec![Token::BlockComment, Token::Identifier]);
    assert_eq!(lex_line("/* */*"), vec![Token::BlockComment, Token::Multiply]);
    // The `*` of the opener does not close it.
    let mut state = State::new();
    let mut s = stream("/*/");
    assert_eq!(next_token(&mut state, &mut s), Some((Token::BlockComment, ())));
    assert_eq!(state.in_between_token(), InBetweenToken::BlockComment(1));
    assert!(s.eol());
}

#[test]
fn comment_on_an_empty_line_stays_open() {
    let mut state = State::new();
    let mut first = stream("/*");
    assert_eq!(next_token(&mut state, &mut first), Some((Token::BlockComment, ())));
    let mut empty = stream("");
    assert_eq!(next_token(&mut state, &mut empty), Some((Token::BlockComment, ())));
    assert_eq!(state.in_between_token(), InBetweenToken::BlockComment(1));
}

#[test]
fn line_comment_takes_the_rest_of_the_line() {
    assert_eq!(lex_line("x // y z"), vec![Token::Identifier, Token::LineComment]);
    let mut s = stream("// y");
    let mut state = State::new();
    assert_eq!(next_token(&mut state, &mut s), Some((Token::LineComment, ())));
    assert!(s.eol());
    assert_eq!(state.in_between_token(), InBetweenToken::Nothing);
}

#[test]
fn string_escapes() {
    assert_eq!(lex_line("\"a\\n\\x41\""), vec![Token::StringConstant]);
    assert_eq!(
        lex_line("\"a\\q\""),
        vec![
            error(LexError::MalformedEscapeSequence("\\".to_string())),
            error(LexError::UnterminatedString),
        ]
    );
}

#[test]
fn string_with_every_escape() {
    assert_eq!(
        lex_line("\"\\\\ \\t \\n \\r \\\" \\x7f \\u00e9 \\U0001F600\" x"),
        vec![Token::StringConstant, Token::Identifier]
    );
}

#[test]
fn numeric_escape_that_breaks_off() {
    assert_eq!(
        lex_line("\"\\x4g\""),
        vec![
            error(LexError::MalformedEscapeSequence("\\x4g".to_string())),
            error(LexError::UnterminatedString),
        ]
    );
    assert_eq!(
        lex_line("\"\\u12"),
        vec![error(LexError::MalformedEscapeSequence("\\u12".to_string()))]
    );
    assert_eq!(
        lex_line("\"\\U0001F60"),
        vec![error(LexError::MalformedEscapeSequence("\\U0001F60".to_string()))]
    );
}

#[test]
fn unterminated_string() {
    assert_eq!(lex_line("\"abc"), vec![error(LexError::UnterminatedString)]);
    assert_eq!(lex_line("\"abc\\"), vec![error(LexError::UnterminatedString)]);
    assert_eq!(lex_line("'a"), vec![error(LexError::UnterminatedString)]);
}

#[test]
fn parse_string_literal_counts_characters() {
    let mut s = stream("ab\\n\\x41\" rest");
    assert_eq!(parse_string_literal(&mut s, '"'), Ok(4));
    assert_eq!(s.pos(), 9);
    let mut s = stream("'");
    assert_eq!(parse_string_literal(&mut s, '\''), Ok(0));
    let mut s = stream("a\\'b'");
    assert_eq!(parse_string_literal(&mut s, '\''), Ok(3));
    let mut s = stream("a\\\"b");
    assert_eq!(
        parse_string_literal(&mut s, '\''),
        Err((LexError::MalformedEscapeSequence("\\".to_string()), ()))
    );
    assert_eq!(s.pos(), 3);
    let mut s = stream("");
    assert_eq!(parse_string_literal(&mut s, '"'), Err((LexError::UnterminatedString, ())));
}

#[test]
fn character_literals() {
    assert_eq!(lex_line("'a'"), vec![Token::CharConstant]);
    assert_eq!(lex_line("'\\n'"), vec![Token::CharConstant]);
    assert_eq!(lex_line("'\\''"), vec![Token::CharConstant]);
    assert_eq!(lex_line("'\\x41'"), vec![Token::CharConstant]);
    assert_eq!(lex_line("'ab'"), vec![error(LexError::MalformedChar)]);
    // Two quotes in a row are one literal, without a character.
    assert_eq!(lex_line("''"), vec![error(LexError::MalformedChar)]);
    assert_eq!(lex_line("'' x"), vec![error(LexError::MalformedChar), Token::Identifier]);
    assert_eq!(
        lex_line("'''"),
        vec![error(LexError::MalformedChar), error(LexError::UnterminatedString)]
    );
    assert_eq!(lex_line("''''"), vec![error(LexError::MalformedChar); 2]);
}

#[test]
fn rejected_lookalikes() {
    assert_eq!(
        lex_line("=>")[0],
        improper("'=>' is not a valid symbol. This is not Rust! Should it be '>='?")
    );
    assert_eq!(lex_line("->")[0], improper("'->' is not a valid symbol. This is not C or C++!"));
    assert_eq!(
        lex_line(":=")[0],
        improper(
            "':=' is not a valid assignment operator. This is not Pascal! Should it be simply '='?"
        )
    );
    assert_eq!(lex_line("<-")[0], improper("'<-' is not a valid symbol. Should it be '<='?"));
    assert_eq!(
        lex_line("===")[0],
        improper("'===' is not a valid operator. This is not JavaScript! Should it be '=='?")
    );
    assert_eq!(
        lex_line("!==")[0],
        improper("'!==' is not a valid operator. This is not JavaScript! Should it be '!='?")
    );
    // The same after a token that makes a sign an infix.
    for text in ["x =>", "x ->", "x :=", "x <-", "x ===", "x !=="] {
        assert!(matches!(
            &lex_line(text)[1],
            Token::LexError(e) if matches!(**e, LexError::ImproperSymbol(_))
        ));
    }
}

#[test]
fn lookalikes_are_read_as_a_whole() {
    for text in ["=>", "->", ":=", "<-", "===", "!=="] {
        let mut s = stream(text);
        let mut state = State::new();
        let (token, _) = next_token(&mut state, &mut s).unwrap();
        assert!(matches!(
            &token,
            Token::LexError(e) if matches!(**e, LexError::ImproperSymbol(_))
        ));
        assert!(s.eol(), "{}", text);
        assert_eq!(next_token(&mut state, &mut s), Some((Token::EOF, ())));
        assert_eq!(lex_line(text).len(), 1, "{}", text);
    }
    // What follows a look-alike is read on its own.
    assert_eq!(lex_line("a=>b").len(), 3);
    assert_eq!(lex_line("a=>b")[2], Token::Identifier);
    assert_eq!(lex_line("a->-b")[2], Token::UnaryMinus);
    assert_eq!(lex_line("a====b")[2], Token::Equals);
    assert_eq!(lex_line("a!===b")[2], Token::Equals);
    assert_eq!(lex_line("a<-1")[2], Token::IntegerConstant);
    assert_eq!(lex_line("a:=>")[2], Token::GreaterThan);
}

#[test]
fn unary_minus_before_a_digit() {
    assert_eq!(lex_line("(-3"), vec![Token::LeftParen, Token::IntegerConstant]);
    assert_eq!(lex_line("x -3"), vec![Token::Identifier, Token::Minus, Token::IntegerConstant]);
    assert_eq!(lex_line("-3"), vec![Token::IntegerConstant]);
    assert_eq!(lex_line("3 -3"), vec![Token::IntegerConstant, Token::Minus, Token::IntegerConstant]);
    assert_eq!(lex_line(") -3"), vec![Token::RightParen, Token::Minus, Token::IntegerConstant]);
}

#[test]
fn signs_are_prefixes_after_operators() {
    assert_eq!(lex_line("-x"), vec![Token::UnaryMinus, Token::Identifier]);
    assert_eq!(lex_line("+x"), vec![Token::UnaryPlus, Token::Identifier]);
    assert_eq!(
        lex_line("x - y + z"),
        vec![Token::Identifier, Token::Minus, Token::Identifier, Token::Plus, Token::Identifier]
    );
    assert_eq!(
        lex_line("x * -y"),
        vec![Token::Identifier, Token::Multiply, Token::UnaryMinus, Token::Identifier]
    );
    assert_eq!(
        lex_line("return -x; -y"),
        vec![
            Token::Return,
            Token::UnaryMinus,
            Token::Identifier,
            Token::SemiColon,
            Token::Minus,
            Token::Identifier
        ]
    );
    assert_eq!(lex_line("#{ -x")[1], Token::Minus);
    assert_eq!(lex_line("/* c */ -x")[1], Token::UnaryMinus);
}

#[test]
fn is_next_unary_by_token() {
    for token in [
        error(LexError::MalformedChar),
        Token::LeftBrace,
        Token::LeftParen,
        Token::LeftBracket,
        Token::Plus,
        Token::UnaryPlus,
        Token::Minus,
        Token::UnaryMinus,
        Token::Multiply,
        Token::Divide,
        Token::Colon,
        Token::Comma,
        Token::Period,
        Token::Equals,
        Token::LessThan,
        Token::GreaterThan,
        Token::Bang,
        Token::LessThanEqualsTo,
        Token::GreaterThanEqualsTo,
        Token::EqualsTo,
        Token::NotEqualsTo,
        Token::Pipe,
        Token::Or,
        Token::Ampersand,
        Token::And,
        Token::If,
        Token::While,
        Token::PlusAssign,
        Token::MinusAssign,
        Token::MultiplyAssign,
        Token::DivideAssign,
        Token::LeftShiftAssign,
        Token::RightShiftAssign,
        Token::AndAssign,
        Token::OrAssign,
        Token::XOrAssign,
        Token::LeftShift,
        Token::RightShift,
        Token::XOr,
        Token::Modulo,
        Token::ModuloAssign,
        Token::Return,
        Token::Throw,
        Token::PowerOf,
        Token::In,
        Token::PowerOfAssign,
        Token::LineComment,
        Token::BlockComment,
    ] {
        assert!(token.is_next_unary(), "{:?}", token);
    }
    for token in [
        Token::IntegerConstant,
        Token::FloatConstant,
        Token::Identifier,
        Token::CharConstant,
        Token::StringConstant,
        Token::RightBrace,
        Token::RightParen,
        Token::RightBracket,
        Token::SemiColon,
        Token::DoubleColon,
        Token::MapStart,
        Token::True,
        Token::False,
        Token::Let,
        Token::Const,
        Token::Else,
        Token::Loop,
        Token::For,
        Token::Fn,
        Token::Continue,
        Token::Break,
        Token::Private,
        Token::Import,
        Token::Export,
        Token::As,
        Token::EOF,
    ] {
        assert!(!token.is_next_unary(), "{:?}", token);
    }
}

#[test]
fn keywords() {
    assert_eq!(
        lex_line(
            "true false let const if else while loop continue break return throw for in \
             private import export as fn"
        ),
        vec![
            Token::True,
            Token::False,
            Token::Let,
            Token::Const,
            Token::If,
            Token::Else,
            Token::While,
            Token::Loop,
            Token::Continue,
            Token::Break,
            Token::Return,
            Token::Throw,
            Token::For,
            Token::In,
            Token::Private,
            Token::Import,
            Token::Export,
            Token::As,
            Token::Fn,
        ]
    );
}

#[test]
fn identifiers() {
    assert_eq!(lex_line("foo _bar baz9 __x1 True lets"), vec![Token::Identifier; 6]);
    assert_eq!(lex_line("_1"), vec![error(LexError::MalformedIdentifier("_1".to_string()))]);
    assert_eq!(lex_line("_"), vec![error(LexError::MalformedIdentifier("_".to_string()))]);
    assert_eq!(lex_line("__9a"), vec![error(LexError::MalformedIdentifier("__9a".to_string()))]);
    // Letters outside ASCII begin no identifier.
    assert_eq!(lex_line("é"), vec![error(LexError::UnexpectedChar('é'))]);
    assert_eq!(lex_line("aé"), vec![Token::Identifier, error(LexError::UnexpectedChar('é'))]);
}

#[test]
fn brackets_and_punctuation() {
    assert_eq!(
        lex_line("{ } ( ) [ ] #{ ; , . : ::"),
        vec![
            Token::LeftBrace,
            Token::RightBrace,
            Token::LeftParen,
            Token::RightParen,
            Token::LeftBracket,
            Token::RightBracket,
            Token::MapStart,
            Token::SemiColon,
            Token::Comma,
            Token::Period,
            Token::Colon,
            Token::DoubleColon,
        ]
    );
}

#[test]
fn operators() {
    assert_eq!(
        lex_line("x + += - -= * *= / /= % %= ~ ~= = == != ! < <= << <<= > >= >> >>= | || |= & && &= ^ ^="),
        vec![
            Token::Identifier,
            Token::Plus,
            Token::PlusAssign,
            Token::UnaryMinus,
            Token::MinusAssign,
            Token::Multiply,
            Token::MultiplyAssign,
            Token::Divide,
            Token::DivideAssign,
            Token::Modulo,
            Token::ModuloAssign,
            Token::PowerOf,
            Token::PowerOfAssign,
            Token::Equals,
            Token::EqualsTo,
            Token::NotEqualsTo,
            Token::Bang,
            Token::LessThan,
            Token::LessThanEqualsTo,
            Token::LeftShift,
            Token::LeftShiftAssign,
            Token::GreaterThan,
            Token::GreaterThanEqualsTo,
            Token::RightShift,
            Token::RightShiftAssign,
            Token::Pipe,
            Token::Or,
            Token::OrAssign,
            Token::Ampersand,
            Token::And,
            Token::AndAssign,
            Token::XOr,
            Token::XOrAssign,
        ]
    );
    assert_eq!(lex_line("a<<=b"), vec![Token::Identifier, Token::LeftShiftAssign, Token::Identifier]);
    assert_eq!(lex_line("a==b"), vec![Token::Identifier, Token::EqualsTo, Token::Identifier]);
}

#[test]
fn unexpected_characters() {
    assert_eq!(lex_line("@"), vec![error(LexError::UnexpectedChar('@'))]);
    assert_eq!(lex_line("#"), vec![error(LexError::UnexpectedChar('#'))]);
    assert_eq!(lex_line("# {")[0], error(LexError::UnexpectedChar('#')));
    assert_eq!(lex_line("$x"), vec![error(LexError::UnexpectedChar('$')), Token::Identifier]);
    assert_eq!(lex_line("\u{0}"), vec![error(LexError::UnexpectedChar('\u{0}'))]);
    assert_eq!(lex_line("😀"), vec![error(LexError::UnexpectedChar('😀'))]);
}

#[test]
fn lexing_goes_on_after_an_error() {
    assert_eq!(
        lex_line("x @ y"),
        vec![Token::Identifier, error(LexError::UnexpectedChar('@')), Token::Identifier]
    );
}

#[test]
fn every_call_reads_on_until_the_line_is_read() {
    for text in [
        "let x = #{ a: 1 }; // done",
        "\"abc\\q' /* /* */",
        "'''''",
        "0x 1..2 a_b @@@",
        "=> -> := <- === !==",
        "   ",
    ] {
        let mut stream = stream(text);
        let mut state = State::new();
        let mut calls = 0;
        while !stream.eol() {
            let before = stream.pos();
            let (token, _) = next_token(&mut state, &mut stream).unwrap();
            assert!(stream.pos() > before);
            assert!(token != Token::EOF || stream.eol());
            calls += 1;
        }
        assert!(calls <= text.encode_utf16().count());
    }
}

#[test]
fn error_messages() {
    assert_eq!(LexError::UnexpectedChar('@').message(), "Unexpected '@'");
    assert_eq!(LexError::UnterminatedString.message(), "Open string is not terminated");
    assert_eq!(
        LexError::StringTooLong(1024).message(),
        "Length of string literal exceeds the maximum limit (1024)"
    );
    assert_eq!(
        LexError::StringTooLong(0).message(),
        "Length of string literal exceeds the maximum limit (0)"
    );
    assert_eq!(
        LexError::StringTooLong(usize::MAX).message(),
        format!("Length of string literal exceeds the maximum limit ({})", usize::MAX)
    );
    assert_eq!(
        LexError::MalformedEscapeSequence("\\q".to_string()).message(),
        "Invalid escape sequence: '\\q'"
    );
    assert_eq!(LexError::MalformedNumber("1.2.3".to_string()).message(), "Invalid number: '1.2.3'");
    assert_eq!(LexError::MalformedChar.message(), "Invalid character: '?'");
    assert_eq!(
        LexError::MalformedIdentifier("_1".to_string()).message(),
        "Variable name is not proper: '_1'"
    );
    assert_eq!(LexError::ImproperSymbol("no".to_string()).message(), "no");
}

#[test]
fn checked_next_token_reads_as_next_token_does() {
    let mut state = State::new();
    let mut s = stream("/* a /* b */ c");
    assert_eq!(checked_next_token(&mut state, &mut s), Some(Some((Token::BlockComment, ()))));
    assert_eq!(state.in_between_token(), InBetweenToken::BlockComment(1));
    assert!(s.eol());
    let mut s = stream("*/ =>");
    assert_eq!(checked_next_token(&mut state, &mut s), Some(Some((Token::BlockComment, ()))));
    assert_eq!(s.pos(), 2);
    assert!(matches!(checked_next_token(&mut state, &mut s), Some(Some((Token::LexError(_), ())))));
    assert_eq!(checked_next_token(&mut state, &mut s), Some(Some((Token::EOF, ()))));
}
