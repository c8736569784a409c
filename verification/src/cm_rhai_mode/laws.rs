//! What holds of the lexer and of the mode on every input.

use vstd::prelude::*;
use crate::cm_rhai_mode::chars::is_digit;
use crate::cm_rhai_mode::{count_brackets, count_fits, step, step_fits, StateView};
use crate::cm_rhai_mode::grammar::{
    NOT_ARROW,
    NOT_BANG_DOUBLE_EQUALS,
    NOT_FAT_ARROW,
    NOT_LEFT_ARROW,
    NOT_TRIPLE_EQUALS,
    NOT_WALRUS,
    at,
    base_at,
    comment_scan,
    decimal_end,
    digits_end,
    escape_width,
    hex_run,
    lemma_comment_peak,
    lemma_decimal_end_bounds,
    lemma_digits_end_bounds,
    lemma_hex_run_bounds,
    lemma_identifier_end_bounds,
    lex,
    lex_from,
    number_at,
    number_token,
    radix_of,
    string_scan,
    token_at,
    Scan,
};
use crate::cm_rhai_mode::number::{
    digits_of,
    integer_of,
    is_literal,
    is_radix_digit,
    lemma_digits_round_trip,
    literal_value,
};
use crate::cm_rhai_mode::token::{LexErrorView, Token, TokenView};

verus! {

// Every call reads on

/// A block comment is read forward, and not beyond the text. Where a
/// comment is open and text is left, something is read.
pub proof fn lemma_comment_scan_bounds(s: Seq<char>, i: int, level: nat)
    requires
        0 <= i <= s.len(),
    ensures
        i <= comment_scan(s, i, level).end <= s.len(),
        level > 0 && i < s.len() ==> i < comment_scan(s, i, level).end,
    decreases s.len() - i,
{
    if level > 0 && i < s.len() {
        if s[i] == '/' && i + 1 < s.len() && s[i + 1] == '*' {
            lemma_comment_scan_bounds(s, i + 2, level + 1);
        } else if s[i] == '*' && i + 1 < s.len() && s[i + 1] == '/' {
            lemma_comment_scan_bounds(s, i + 2, (level - 1) as nat);
        } else {
            lemma_comment_scan_bounds(s, i + 1, level);
        }
    }
}

/// A quoted literal is read forward, and not beyond the text.
pub proof fn lemma_string_scan_bounds(
    s: Seq<char>,
    i: int,
    close: char,
    escaped: bool,
    count: nat,
)
    requires
        0 <= i <= s.len(),
    ensures
        i <= string_scan(s, i, close, escaped, count).end <= s.len(),
    decreases s.len() - i,
{
    if i < s.len() {
        if !escaped {
            if s[i] == '\\' {
                lemma_string_scan_bounds(s, i + 1, close, true, count);
            } else if s[i] != close {
                lemma_string_scan_bounds(s, i + 1, close, false, count + 1);
            }
        } else if s[i] == '\\' || s[i] == 't' || s[i] == 'n' || s[i] == 'r' {
            lemma_string_scan_bounds(s, i + 1, close, false, count + 1);
        } else if s[i] == 'x' || s[i] == 'u' || s[i] == 'U' {
            let width = escape_width(s[i]);
            lemma_hex_run_bounds(s, i + 1, width);
            if hex_run(s, i + 1, width) == width {
                lemma_string_scan_bounds(s, i + 1 + width, close, false, count + 1);
            }
        } else if s[i] == close {
            lemma_string_scan_bounds(s, i + 1, close, false, count + 1);
        }
    }
}

/// A token takes at least the character that it begins with, and no more
/// than the text holds. No token that begins with a character is the end
/// of the stream.
pub proof fn lemma_token_at_bounds(s: Seq<char>, i: int, unary: bool)
    requires
        0 <= i < s.len(),
    ensures
        token_at(s, i, unary) matches Some(scan) ==> i < scan.end <= s.len() && scan.token
            != TokenView::Plain(Token::EOF),
{
    lemma_decimal_end_bounds(s, i + 1);
    if i + 1 < s.len() {
        lemma_decimal_end_bounds(s, i + 2);
        lemma_digits_end_bounds(s, i + 2, 16);
        lemma_digits_end_bounds(s, i + 2, 8);
        lemma_digits_end_bounds(s, i + 2, 2);
        lemma_comment_scan_bounds(s, i + 2, 1);
    }
    if i + 2 < s.len() {
        lemma_digits_end_bounds(s, i + 3, 16);
        lemma_digits_end_bounds(s, i + 3, 8);
        lemma_digits_end_bounds(s, i + 3, 2);
    }
    lemma_identifier_end_bounds(s, i + 1);
    lemma_string_scan_bounds(s, i + 1, '"', false, 0);
    lemma_string_scan_bounds(s, i + 1, '\'', false, 0);
}

/// The lexer reads forward, and not beyond the text. It reads something
/// wherever text is left, and it reports the end of the stream only where
/// it has read all there was.
pub proof fn lemma_lex_from_advances(s: Seq<char>, i: int, unary: bool)
    requires
        0 <= i <= s.len(),
    ensures
        i <= lex_from(s, i, unary).end <= s.len(),
        i < s.len() ==> i < lex_from(s, i, unary).end,
        lex_from(s, i, unary).token == TokenView::Plain(Token::EOF) ==> lex_from(s, i, unary).end
            == s.len(),
    decreases s.len() - i,
{
    if i < s.len() {
        if s[i] == '\n' {
            lemma_lex_from_advances(s, i + 1, unary);
        } else {
            lemma_token_at_bounds(s, i, unary);
            if token_at(s, i, unary) is None {
                lemma_lex_from_advances(s, i + 1, unary);
            }
        }
    }
}

/// Every call of the lexer on a text that is not empty reads at least one
/// character of it, and none reads beyond the text. Outside a comment,
/// the end of the stream is reported only where all the text was read.
pub proof fn lemma_lex_advances(s: Seq<char>, unary: bool, level: nat)
    ensures
        0 <= lex(s, unary, level).end <= s.len(),
        s.len() > 0 ==> 0 < lex(s, unary, level).end,
        lex(s, unary, level).token == TokenView::Plain(Token::EOF) ==> lex(s, unary, level).end
            == s.len(),
{
    lemma_comment_scan_bounds(s, 0, level);
    lemma_lex_from_advances(s, 0, unary);
}

/// While one token is read, no more block comments are open than were
/// open before it and the text could open.
pub proof fn lemma_lex_peak(s: Seq<char>, unary: bool, level: nat)
    ensures
        lex(s, unary, level).peak <= level + s.len(),
{
    lemma_comment_peak(s, 0, level);
    lemma_lex_from_peak(s, 0, unary);
}

/// While a token outside any comment is read, no more block comments are
/// open than the text from there on could open.
pub proof fn lemma_lex_from_peak(s: Seq<char>, i: int, unary: bool)
    requires
        0 <= i <= s.len(),
    ensures
        lex_from(s, i, unary).peak <= s.len() - i,
    decreases s.len() - i,
{
    if i < s.len() {
        if i + 2 <= s.len() {
            lemma_comment_peak(s, i + 2, 1);
        }
        if s[i] == '\n' || token_at(s, i, unary) is None {
            lemma_lex_from_peak(s, i + 1, unary);
        }
    }
}

/// Whether `calls` calls of the lexer, each on what the one before it
/// left, read the text `s` to its end, every one of them reading
/// something. `unary` and `level` are the state before the first call.
pub open spec fn is_read_within(s: Seq<char>, unary: bool, level: nat, calls: nat) -> bool
    decreases calls,
{
    let scan = lex(s, unary, level);
    if s.len() == 0 {
        true
    } else if calls == 0 {
        false
    } else {
        &&& 0 < scan.end <= s.len()
        &&& is_read_within(
            s.skip(scan.end),
            scan.token.next_is_unary(),
            scan.level,
            (calls - 1) as nat,
        )
    }
}

/// A line is read to its end in no more calls than it has characters,
/// whatever it holds and whatever the state before it: calling the lexer
/// again and again while text is left comes to an end.
pub proof fn lemma_line_is_read_to_its_end(s: Seq<char>, unary: bool, level: nat)
    ensures
        is_read_within(s, unary, level, s.len()),
    decreases s.len(),
{
    let scan = lex(s, unary, level);
    lemma_lex_advances(s, unary, level);
    if s.len() > 0 {
        let rest = s.skip(scan.end);
        lemma_line_is_read_to_its_end(rest, scan.token.next_is_unary(), scan.level);
        lemma_more_calls_do_no_harm(
            rest,
            scan.token.next_is_unary(),
            scan.level,
            rest.len(),
            (s.len() - 1) as nat,
        );
    }
}

/// What is read within some number of calls is read within any greater
/// number.
proof fn lemma_more_calls_do_no_harm(s: Seq<char>, unary: bool, level: nat, calls: nat, more: nat)
    requires
        is_read_within(s, unary, level, calls),
        calls <= more,
    ensures
        is_read_within(s, unary, level, more),
    decreases calls,
{
    if s.len() > 0 {
        let scan = lex(s, unary, level);
        lemma_more_calls_do_no_harm(
            s.skip(scan.end),
            scan.token.next_is_unary(),
            scan.level,
            (calls - 1) as nat,
            (more - 1) as nat,
        );
    }
}

/// Every call of the mode on what is left of a line reads at least one
/// character, and none reads beyond the line. The mode has nothing to
/// paint only where the line is read to its end.
pub proof fn lemma_step_advances(state: StateView, sol: bool, indentation: u32, s: Seq<char>)
    ensures
        0 <= step(state, sol, indentation, s).end <= s.len(),
        s.len() > 0 ==> 0 < step(state, sol, indentation, s).end,
        step(state, sol, indentation, s).category is None ==> step(state, sol, indentation, s).end
            == s.len(),
{
    let begun = if sol {
        state.at_line_start(indentation)
    } else {
        state
    };
    lemma_lex_advances(s, begun.unary, begun.level);
}

/// A call of the mode stays within what its counters hold wherever the
/// comments that are open and the characters that are left together are a
/// number of 32 bits, and the number of brackets, off the start of the
/// line, is neither the least nor the greatest of 32 bits with a sign.
pub proof fn lemma_step_fits(state: StateView, sol: bool, indentation: u32, s: Seq<char>)
    requires
        state.level + s.len() <= u32::MAX,
        sol || i32::MIN < state.unclosed_bracket_count < i32::MAX,
    ensures
        step_fits(state, sol, indentation, s),
{
    let begun = if sol {
        state.at_line_start(indentation)
    } else {
        state
    };
    lemma_lex_peak(s, begun.unary, begun.level);
}

/// At the end of a line, outside any comment, a call of the mode reads
/// nothing and paints nothing, and the brackets stay as they are counted;
/// no counter is put to the test.
pub proof fn lemma_end_of_line(state: StateView, sol: bool, indentation: u32)
    requires
        state.level == 0,
    ensures
        step(state, sol, indentation, Seq::<char>::empty()).category is None,
        step(state, sol, indentation, Seq::<char>::empty()).end == 0,
        step(state, sol, indentation, Seq::<char>::empty()).token == TokenView::Plain(Token::EOF),
        step(state, sol, indentation, Seq::<char>::empty()).state.unclosed_bracket_count == (if sol {
            0
        } else {
            state.unclosed_bracket_count
        }),
        count_fits(state.unclosed_bracket_count) ==> step_fits(
            state,
            sol,
            indentation,
            Seq::<char>::empty(),
        ),
{
}

// Integer literals

/// The two characters that announce a base other than ten.
pub open spec fn radix_prefix(radix: u32) -> Seq<char> {
    if radix == 16 {
        seq!['0', 'x']
    } else if radix == 8 {
        seq!['0', 'o']
    } else if radix == 2 {
        seq!['0', 'b']
    } else {
        Seq::empty()
    }
}

/// The literal that stands for `n` in base 2, 8, 10 or 16: the number in
/// that base, behind `0b`, `0o` or `0x` where the base is not ten.
pub open spec fn literal_text(n: nat, radix: u32) -> Seq<char> {
    radix_prefix(radix) + digits_of(n, radix as nat)
}

/// The digits of an integer literal: all of it in decimal notation, and
/// what stands behind the two characters that announce another base.
pub open spec fn literal_digits(text: Seq<char>, radix: u32) -> Seq<char> {
    if radix == 10 {
        text
    } else {
        text.skip(2)
    }
}

/// Whether `text` is an integer literal of base 2, 8, 10 or 16: digits of
/// the base, with underscores among them at will, in decimal notation
/// behind a first digit, in any other base behind `0` and the letter of
/// the base, in either case.
pub open spec fn is_integer_literal(text: Seq<char>, radix: u32) -> bool {
    &&& radix == 2 || radix == 8 || radix == 10 || radix == 16
    &&& is_literal(literal_digits(text, radix), radix as int)
    &&& if radix == 10 {
        text.len() > 0 && is_digit(text[0])
    } else {
        text.len() >= 2 && text[0] == '0' && radix_of(text[1]) == Some(radix)
    }
}

/// Digits of a base and underscores from `i` on to the end of the text are
/// read as one run.
proof fn lemma_digits_end_of_digits(s: Seq<char>, i: int, radix: int)
    requires
        0 <= i <= s.len(),
        forall|k: int| i <= k < s.len() ==> #[trigger] s[k] == '_' || is_radix_digit(s[k], radix),
    ensures
        digits_end(s, i, radix) == s.len(),
    decreases s.len() - i,
{
    if i < s.len() {
        lemma_digits_end_of_digits(s, i + 1, radix);
    }
}

/// A literal that goes on in decimal digits and underscores to the end of
/// the text ends there.
proof fn lemma_decimal_end_of_digits(s: Seq<char>, i: int)
    requires
        0 <= i <= s.len(),
        forall|k: int| i <= k < s.len() ==> #[trigger] s[k] == '_' || is_radix_digit(s[k], 10),
    ensures
        decimal_end(s, i) == s.len(),
    decreases s.len() - i,
{
    if i < s.len() {
        lemma_decimal_end_of_digits(s, i + 1);
    }
}

/// An integer literal in range is one token, an integer constant: the
/// lexer reads all of it, wherever a sign would be a prefix or not, and
/// its digits, read in its base without the underscores, are its value.
pub proof fn lemma_integer_literal_is_one_token(text: Seq<char>, radix: u32, unary: bool)
    requires
        is_integer_literal(text, radix),
        literal_value(literal_digits(text, radix), radix as int) <= i64::MAX,
    ensures
        lex(text, unary, 0) == (Scan {
            token: TokenView::Plain(Token::IntegerConstant),
            end: text.len() as int,
            level: 0,
            peak: 0,
        }),
        integer_of(literal_digits(text, radix), false, radix as int) == Some(
            literal_value(literal_digits(text, radix), radix as int) as i64,
        ),
{
    let digits = literal_digits(text, radix);
    assert(text.subrange(0, text.len() as int) =~= text);
    if radix == 10 {
        assert(base_at(text, 0) is None) by {
            if text.len() > 1 {
                assert(text[1] == '_' || is_radix_digit(text[1], 10));
            }
        }
        lemma_decimal_end_of_digits(text, 1);
    } else {
        assert(base_at(text, 0) == Some(radix));
        assert forall|k: int| 2 <= k < text.len() implies #[trigger] text[k] == '_'
            || is_radix_digit(text[k], radix as int) by {
            assert(text[k] == digits[k - 2]);
        }
        lemma_digits_end_of_digits(text, 2, radix as int);
    }
    assert(number_at(text, 0, false).end == text.len());
    assert(number_token(text, false, base_at(text, 0)) == TokenView::Plain(
        Token::IntegerConstant,
    ));
    assert(token_at(text, 0, unary) == Some(number_at(text, 0, false)));
}

/// The literal of an integer spells the integer: the text that stands for
/// `n` in base 2, 8, 10 or 16 is an integer literal of that base, lexing
/// it reads all of it as one integer constant, and reading its digits in
/// that base gives `n` back.
pub proof fn lemma_integer_literal_round_trip(n: nat, radix: u32, unary: bool)
    requires
        radix == 2 || radix == 8 || radix == 10 || radix == 16,
        n <= i64::MAX,
    ensures
        is_integer_literal(literal_text(n, radix), radix),
        lex(literal_text(n, radix), unary, 0) == (Scan {
            token: TokenView::Plain(Token::IntegerConstant),
            end: literal_text(n, radix).len() as int,
            level: 0,
            peak: 0,
        }),
        literal_digits(literal_text(n, radix), radix) == digits_of(n, radix as nat),
        literal_value(digits_of(n, radix as nat), radix as int) == n,
        integer_of(digits_of(n, radix as nat), false, radix as int) == Some(n as i64),
{
    let digits = digits_of(n, radix as nat);
    let text = literal_text(n, radix);
    lemma_digits_round_trip(n, radix as nat);
    assert(digits.len() > 0);
    if radix == 10 {
        assert(text =~= digits);
        assert(is_radix_digit(digits[0], 10));
    } else {
        assert(text.skip(2) =~= digits);
        assert(text[0] == '0');
        assert(radix_of(text[1]) == Some(radix));
    }
    assert(literal_digits(text, radix) == digits);
    lemma_integer_literal_is_one_token(text, radix, unary);
}

// Signs and symbols

/// A minus sign before a digit is the sign of the number where a sign is a
/// prefix, and an operator by itself elsewhere. A sign is a prefix after
/// an opening parenthesis, and none after an identifier.
pub proof fn lemma_minus_before_a_digit(s: Seq<char>, i: int)
    requires
        0 <= i,
        i + 1 < s.len(),
        s[i] == '-',
        is_digit(s[i + 1]),
    ensures
        token_at(s, i, true) == Some(number_at(s, i + 1, true)),
        token_at(s, i, false) == Some(
            Scan { token: TokenView::Plain(Token::Minus), end: i + 1, level: 0, peak: 0 },
        ),
        Token::LeftParen.next_is_unary(),
        !Token::Identifier.next_is_unary(),
{
}

/// Whether the characters `a` and `b` stand at `i` in `s`.
pub open spec fn pair_at(s: Seq<char>, i: int, a: char, b: char) -> bool {
    at(s, i) == Some(a) && at(s, i + 1) == Some(b)
}

/// The error with `message`, read over `width` characters from `i` on.
pub open spec fn rejected(message: &str, i: int, width: int) -> Option<Scan> {
    Some(
        Scan {
            token: TokenView::Error(LexErrorView::ImproperSymbol(message@)),
            end: i + width,
            level: 0,
            peak: 0,
        },
    )
}

/// `=>`, `->`, `:=`, `<-`, `===` and `!==` are errors wherever they stand
/// and whatever came before, and never an operator: each is read as a
/// whole, so that no part of it is left to be read as one.
pub proof fn lemma_lookalikes_are_rejected(s: Seq<char>, i: int, unary: bool)
    requires
        0 <= i < s.len(),
    ensures
        pair_at(s, i, '=', '>') ==> token_at(s, i, unary) == rejected(NOT_FAT_ARROW, i, 2),
        pair_at(s, i, '-', '>') ==> token_at(s, i, unary) == rejected(NOT_ARROW, i, 2),
        pair_at(s, i, ':', '=') ==> token_at(s, i, unary) == rejected(NOT_WALRUS, i, 2),
        pair_at(s, i, '<', '-') ==> token_at(s, i, unary) == rejected(NOT_LEFT_ARROW, i, 2),
        pair_at(s, i, '=', '=') && at(s, i + 2) == Some('=') ==> token_at(s, i, unary) == rejected(
            NOT_TRIPLE_EQUALS,
            i,
            3,
        ),
        pair_at(s, i, '!', '=') && at(s, i + 2) == Some('=') ==> token_at(s, i, unary) == rejected(
            NOT_BANG_DOUBLE_EQUALS,
            i,
            3,
        ),
{
}

// Brackets

/// The number of brackets that are open after `tokens`, where `count` were
/// open before them.
pub open spec fn count_after(count: int, tokens: Seq<TokenView>) -> int
    decreases tokens.len(),
{
    if tokens.len() == 0 {
        count
    } else {
        tokens.last().count_brackets(count_after(count, tokens.drop_last()))
    }
}

/// The number of brackets that `tokens` open.
pub open spec fn opened(tokens: Seq<TokenView>) -> int
    decreases tokens.len(),
{
    if tokens.len() == 0 {
        0
    } else {
        opened(tokens.drop_last()) + (if tokens.last().opens_bracket() {
            1int
        } else {
            0int
        })
    }
}

/// The number of brackets that `tokens` close.
pub open spec fn closed(tokens: Seq<TokenView>) -> int
    decreases tokens.len(),
{
    if tokens.len() == 0 {
        0
    } else {
        closed(tokens.drop_last()) + (if tokens.last().is_closing() {
            1int
        } else {
            0int
        })
    }
}

/// Whether no bracket is closed in `tokens` before it was opened.
pub open spec fn closes_in_turn(tokens: Seq<TokenView>) -> bool {
    forall|k: int|
        0 <= k <= tokens.len() ==> closed(#[trigger] tokens.take(k)) <= opened(tokens.take(k))
}

/// After tokens that close no bracket before it was opened, the count of
/// unclosed brackets is the number of brackets opened less the number
/// closed, and it is not negative.
pub proof fn lemma_brackets_balance(tokens: Seq<TokenView>)
    requires
        closes_in_turn(tokens),
    ensures
        count_after(0, tokens) == opened(tokens) - closed(tokens),
        count_after(0, tokens) >= 0,
    decreases tokens.len(),
{
    assert(tokens.take(tokens.len() as int) =~= tokens);
    if tokens.len() > 0 {
        let front = tokens.drop_last();
        assert forall|k: int| 0 <= k <= front.len() implies closed(#[trigger] front.take(k))
            <= opened(front.take(k)) by {
            assert(front.take(k) =~= tokens.take(k));
        }
        lemma_brackets_balance(front);
    }
}

/// The count of unclosed brackets is never less than the number of
/// brackets opened less the number closed.
pub proof fn lemma_brackets_at_least(tokens: Seq<TokenView>)
    ensures
        count_after(0, tokens) >= opened(tokens) - closed(tokens),
    decreases tokens.len(),
{
    if tokens.len() > 0 {
        lemma_brackets_at_least(tokens.drop_last());
    }
}

/// After tokens that close a bracket before it was opened, and yet open no
/// fewer brackets than they close, the count of unclosed brackets is more
/// than the number of brackets opened less the number closed: the opening
/// bracket that came next counted from zero.
pub proof fn lemma_brackets_out_of_turn(tokens: Seq<TokenView>)
    requires
        !closes_in_turn(tokens),
        opened(tokens) >= closed(tokens),
    ensures
        count_after(0, tokens) > opened(tokens) - closed(tokens),
    decreases tokens.len(),
{
    let k = choose|k: int|
        0 <= k <= tokens.len() && closed(#[trigger] tokens.take(k)) > opened(tokens.take(k));
    assert(tokens.take(tokens.len() as int) =~= tokens);
    assert(k < tokens.len());
    let front = tokens.drop_last();
    assert(front.take(k) =~= tokens.take(k));
    assert(!closes_in_turn(front));
    lemma_brackets_at_least(front);
    if opened(front) >= closed(front) {
        lemma_brackets_out_of_turn(front);
    }
}

/// After an opening bracket at least one bracket is open, however many
/// were closed before it. A closing bracket takes one off the count, and
/// any other token leaves it.
pub proof fn lemma_count_brackets(count: int, token: Token)
    ensures
        token.opens_bracket() ==> count_brackets(count, token) >= 1,
        token.opens_bracket() ==> count_brackets(count, token) == (if count < 0 {
            0
        } else {
            count
        }) + 1,
        token.is_closing() ==> count_brackets(count, token) == count - 1,
        !token.opens_bracket() && !token.is_closing() ==> count_brackets(count, token) == count,
{
}

// Brackets on a line

/// The state at which the first token of a line is read: the line begun
/// anew where the call is the first of the line.
pub open spec fn begun(state: StateView, sol: bool, indentation: u32) -> StateView {
    if sol {
        state.at_line_start(indentation)
    } else {
        state
    }
}

/// The tokens that calls of the mode read from `s`, which is what is left
/// of a line, one call after the other for as long as text is left. `sol`
/// says whether `s` is the whole line.
pub open spec fn line_tokens(state: StateView, sol: bool, indentation: u32, s: Seq<char>) -> Seq<
    TokenView,
>
    decreases s.len(),
{
    let step = step(state, sol, indentation, s);
    if s.len() == 0 || step.end <= 0 || step.end > s.len() {
        Seq::empty()
    } else {
        seq![step.token] + line_tokens(step.state, false, indentation, s.skip(step.end))
    }
}

/// The state after `calls` calls of the mode on `s`, which is what is left
/// of a line, or after as many as it takes to read the line where that is
/// fewer.
pub open spec fn state_after_calls(
    state: StateView,
    sol: bool,
    indentation: u32,
    s: Seq<char>,
    calls: nat,
) -> StateView
    decreases calls,
{
    let step = step(state, sol, indentation, s);
    if calls == 0 || s.len() == 0 || step.end <= 0 || step.end > s.len() {
        state
    } else {
        state_after_calls(step.state, false, indentation, s.skip(step.end), (calls - 1) as nat)
    }
}

/// Counting the brackets of a token and then those of more tokens is
/// counting those of them all.
proof fn lemma_count_after_first(count: int, first: TokenView, rest: Seq<TokenView>)
    ensures
        count_after(count, seq![first] + rest) == count_after(first.count_brackets(count), rest),
    decreases rest.len(),
{
    let all = seq![first] + rest;
    if rest.len() == 0 {
        assert(all.drop_last() =~= Seq::<TokenView>::empty());
        assert(count_after(count, all.drop_last()) == count);
    } else {
        assert(all.drop_last() =~= seq![first] + rest.drop_last());
        lemma_count_after_first(count, first, rest.drop_last());
    }
}

/// The mode counts the brackets of a line token by token: after any number
/// of calls on a line, of which there is at least one, the count of
/// unclosed brackets is what the tokens read so far come to, from zero at
/// the start of the line.
pub proof fn lemma_calls_count_brackets(
    state: StateView,
    sol: bool,
    indentation: u32,
    s: Seq<char>,
    calls: nat,
)
    requires
        s.len() > 0,
        calls > 0,
    ensures
        ({
            let tokens = line_tokens(state, sol, indentation, s);
            let read = if calls <= tokens.len() {
                calls as int
            } else {
                tokens.len() as int
            };
            &&& tokens.len() > 0
            &&& state_after_calls(state, sol, indentation, s, calls).unclosed_bracket_count
                == count_after(
                begun(state, sol, indentation).unclosed_bracket_count,
                tokens.take(read),
            )
        }),
    decreases calls,
{
    let step = step(state, sol, indentation, s);
    lemma_step_advances(state, sol, indentation, s);
    let rest = s.skip(step.end);
    let more = line_tokens(step.state, false, indentation, rest);
    let tokens = line_tokens(state, sol, indentation, s);
    let start = begun(state, sol, indentation).unclosed_bracket_count;
    assert(tokens == seq![step.token] + more);
    assert(step.state.unclosed_bracket_count == step.token.count_brackets(start));
    assert(tokens.len() == more.len() + 1);
    let read = if calls <= tokens.len() {
        calls as int
    } else {
        tokens.len() as int
    };
    let after = state_after_calls(step.state, false, indentation, rest, (calls - 1) as nat);
    assert(state_after_calls(state, sol, indentation, s, calls) == after);
    if calls == 1 || rest.len() == 0 {
        assert(after == step.state);
        assert(rest.len() == 0 ==> more.len() == 0);
        assert(read == 1);
        assert(tokens.take(1) =~= seq![step.token] + Seq::<TokenView>::empty());
        lemma_count_after_first(start, step.token, Seq::<TokenView>::empty());
        assert(count_after(step.token.count_brackets(start), Seq::<TokenView>::empty())
            == step.token.count_brackets(start));
    } else {
        lemma_calls_count_brackets(step.state, false, indentation, rest, (calls - 1) as nat);
        let read_more = if calls - 1 <= more.len() {
            calls - 1
        } else {
            more.len() as int
        };
        assert(read == read_more + 1);
        assert(begun(step.state, false, indentation) == step.state);
        assert(tokens.take(read) =~= seq![step.token] + more.take(read_more));
        lemma_count_after_first(start, step.token, more.take(read_more));
    }
}

/// On a line that closes no bracket before it was opened, read from its
/// start by calls of the mode, the count of unclosed brackets is after
/// every call the number of brackets opened so far less the number closed,
/// and never negative; at the end of the line it is the number of brackets
/// that the line opens less the number that it closes.
pub proof fn lemma_line_balances_brackets(
    state: StateView,
    indentation: u32,
    s: Seq<char>,
    calls: nat,
)
    requires
        s.len() > 0,
        calls > 0,
        closes_in_turn(line_tokens(state, true, indentation, s)),
    ensures
        ({
            let tokens = line_tokens(state, true, indentation, s);
            let read = if calls <= tokens.len() {
                calls as int
            } else {
                tokens.len() as int
            };
            let count = state_after_calls(state, true, indentation, s, calls).unclosed_bracket_count;
            &&& count == opened(tokens.take(read)) - closed(tokens.take(read))
            &&& count >= 0
            &&& calls >= tokens.len() ==> count == opened(tokens) - closed(tokens)
        }),
{
    let tokens = line_tokens(state, true, indentation, s);
    let read = if calls <= tokens.len() {
        calls as int
    } else {
        tokens.len() as int
    };
    lemma_calls_count_brackets(state, true, indentation, s, calls);
    let front = tokens.take(read);
    assert forall|k: int| 0 <= k <= front.len() implies closed(#[trigger] front.take(k)) <= opened(
        front.take(k),
    ) by {
        assert(front.take(k) =~= tokens.take(k));
    }
    lemma_brackets_balance(front);
    assert(tokens.take(tokens.len() as int) =~= tokens);
}

} // verus!
