use rhai_mode::cm_rhai_mode::number::{parse_integer, push_decimal, to_digit};
use rhai_mode::cm_rhai_mode::token::{next_token, LexError, State, Token};
use rhai_mode::codemirror::StringStream;

fn stream(text: &str) -> StringStream {
    StringStream::new(text.encode_utf16().collect(), 0)
}

/// The first token of `text`, and whether all of the text was read for it.
fn first(text: &str) -> (Token, bool) {
    let mut stream = stream(text);
    let mut state = State::new();
    let (token, _) = next_token(&mut state, &mut stream).unwrap();
    (token, stream.eol())
}

fn malformed(text: &str) -> Token {
    Token::LexError(Box::new(LexError::MalformedNumber(text.to_string())))
}

fn chars(text: &str) -> Vec<char> {
    text.chars().collect()
}

#[test]
fn integer_literals_in_four_bases() {
    for text in ["0", "7", "123", "1_000_000", "0x1F", "0XfF", "0xdead_beef", "0o17", "0O7", "0b101", "0B1_0"] {
        assert_eq!(first(text), (Token::IntegerConstant, true), "{}", text);
    }
}

#[test]
fn integer_literal_round_trip() {
    for n in [0i64, 1, 9, 10, 255, 1023, 65_536, 987_654_321, i64::MAX] {
        for (radix, text) in [
            (10, format!("{}", n)),
            (16, format!("0x{:x}", n)),
            (8, format!("0o{:o}", n)),
            (2, format!("0b{:b}", n)),
        ] {
            assert_eq!(first(&text), (Token::IntegerConstant, true), "{}", text);
            let start = if radix == 10 { 0 } else { 2 };
            assert_eq!(parse_integer(&chars(&text), start, false, radix), Some(n), "{}", text);
        }
    }
}

#[test]
fn parse_integer_reads_digits_and_skips_underscores() {
    assert_eq!(parse_integer(&chars("1F"), 0, false, 16), Some(31));
    assert_eq!(parse_integer(&chars("0x1f"), 2, false, 16), Some(31));
    assert_eq!(parse_integer(&chars("17"), 0, false, 8), Some(15));
    assert_eq!(parse_integer(&chars("101"), 0, false, 2), Some(5));
    assert_eq!(parse_integer(&chars("1_000"), 0, false, 10), Some(1000));
    assert_eq!(parse_integer(&chars("_1_"), 0, false, 10), Some(1));
    assert_eq!(parse_integer(&chars("42"), 0, true, 10), Some(-42));
    assert_eq!(parse_integer(&chars("000"), 0, false, 10), Some(0));
}

#[test]
fn parse_integer_refuses_what_is_no_number() {
    assert_eq!(parse_integer(&chars(""), 0, false, 10), None);
    assert_eq!(parse_integer(&chars("_"), 0, false, 10), None);
    assert_eq!(parse_integer(&chars("0x"), 2, false, 16), None);
    assert_eq!(parse_integer(&chars("12a"), 0, false, 10), None);
    assert_eq!(parse_integer(&chars("8"), 0, false, 8), None);
    assert_eq!(parse_integer(&chars("2"), 0, false, 2), None);
    assert_eq!(parse_integer(&chars("1.5"), 0, false, 10), None);
    assert_eq!(parse_integer(&chars("g"), 0, false, 16), None);
}

#[test]
fn parse_integer_keeps_to_the_range() {
    assert_eq!(parse_integer(&chars("9223372036854775807"), 0, false, 10), Some(i64::MAX));
    assert_eq!(parse_integer(&chars("9223372036854775808"), 0, false, 10), None);
    assert_eq!(parse_integer(&chars("9223372036854775808"), 0, true, 10), Some(i64::MIN));
    assert_eq!(parse_integer(&chars("9223372036854775809"), 0, true, 10), None);
    assert_eq!(parse_integer(&chars("7fffffffffffffff"), 0, false, 16), Some(i64::MAX));
    assert_eq!(parse_integer(&chars("8000000000000000"), 0, false, 16), None);
    assert_eq!(parse_integer(&chars("8000000000000000"), 0, true, 16), Some(i64::MIN));
    assert_eq!(parse_integer(&chars("99999999999999999999999999999999999999999"), 0, false, 10), None);
}

#[test]
fn to_digit_by_base() {
    assert_eq!(to_digit('0', 2), Some(0));
    assert_eq!(to_digit('1', 2), Some(1));
    assert_eq!(to_digit('2', 2), None);
    assert_eq!(to_digit('7', 8), Some(7));
    assert_eq!(to_digit('8', 8), None);
    assert_eq!(to_digit('9', 10), Some(9));
    assert_eq!(to_digit('a', 10), None);
    assert_eq!(to_digit('a', 16), Some(10));
    assert_eq!(to_digit('F', 16), Some(15));
    assert_eq!(to_digit('g', 16), None);
    assert_eq!(to_digit('_', 16), None);
}

#[test]
fn push_decimal_writes_the_digits() {
    let mut s = String::from("n=");
    push_decimal(&mut s, 0);
    assert_eq!(s, "n=0");
    push_decimal(&mut s, 907);
    assert_eq!(s, "n=0907");
    let mut s = String::new();
    push_decimal(&mut s, usize::MAX);
    assert_eq!(s, usize::MAX.to_string());
}

#[test]
fn floating_point_literals() {
    for text in ["1.5", "0.0", "1.", "1_0.2_5", "12._", "0.5"] {
        assert_eq!(first(text), (Token::FloatConstant, true), "{}", text);
    }
}

#[test]
fn integer_out_of_range_is_a_float() {
    assert_eq!(first("9223372036854775807"), (Token::IntegerConstant, true));
    assert_eq!(first("9223372036854775808"), (Token::FloatConstant, true));
    assert_eq!(first("-9223372036854775808"), (Token::IntegerConstant, true));
    assert_eq!(first("-9223372036854775809"), (Token::FloatConstant, true));
}

#[test]
fn malformed_numbers_carry_their_text() {
    assert_eq!(first("1.2.3"), (malformed("1.2.3"), true));
    assert_eq!(first("1..2"), (malformed("1..2"), true));
    assert_eq!(first("-1.2.3"), (malformed("-1.2.3"), true));
    assert_eq!(first("0x"), (malformed("0x"), true));
    assert_eq!(first("0x_"), (malformed("0x_"), true));
    assert_eq!(first("0o8"), (malformed("0o"), false));
    assert_eq!(first("0xg"), (malformed("0x"), false));
    assert_eq!(first("0xffffffffffffffff"), (malformed("0xffffffffffffffff"), true));
    assert_eq!(first("0b_"), (malformed("0b_"), true));
}

#[test]
fn a_literal_with_a_base_holds_digits_of_that_base_only() {
    assert_eq!(first("0b12"), (Token::IntegerConstant, false));
    assert_eq!(first("0x1.5"), (Token::IntegerConstant, false));
    assert_eq!(first("0x1o7"), (Token::IntegerConstant, false));
    assert_eq!(first("0o17x"), (Token::IntegerConstant, false));
    let mut stream = stream("0b12");
    let mut state = State::new();
    assert_eq!(next_token(&mut state, &mut stream), Some((Token::IntegerConstant, ())));
    assert_eq!(stream.pos(), 3);
    assert_eq!(next_token(&mut state, &mut stream), Some((Token::IntegerConstant, ())));
    assert!(stream.eol());
}

#[test]
fn a_base_follows_a_leading_zero_at_once() {
    // `1x2` is the number 1 and then a name.
    assert_eq!(first("1x2"), (Token::IntegerConstant, false));
    assert_eq!(first("0y"), (Token::IntegerConstant, false));
    assert_eq!(first("00x1"), (Token::IntegerConstant, false));
    assert_eq!(first("0_x1"), (Token::IntegerConstant, false));
    let mut stream = stream("00x1");
    let mut state = State::new();
    assert_eq!(next_token(&mut state, &mut stream), Some((Token::IntegerConstant, ())));
    assert_eq!(stream.pos(), 2);
    assert_eq!(next_token(&mut state, &mut stream), Some((Token::Identifier, ())));
}

#[test]
fn negative_literals_with_a_base() {
    assert_eq!(first("-0x1F"), (Token::IntegerConstant, true));
    assert_eq!(first("-0x8000000000000000"), (Token::IntegerConstant, true));
    assert_eq!(first("-0x8000000000000001"), (malformed("-0x8000000000000001"), true));
}
