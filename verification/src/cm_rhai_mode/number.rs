//! Integers in positional notation: reading digits and writing them.

use vstd::prelude::*;

verus! {

/// The value of a digit in bases up to sixteen; -1 for any other
/// character.
pub open spec fn digit_of(c: char) -> int {
    if '0' <= c <= '9' {
        c as int - '0' as int
    } else if 'a' <= c <= 'f' {
        c as int - 'a' as int + 10
    } else if 'A' <= c <= 'F' {
        c as int - 'A' as int + 10
    } else {
        -1
    }
}

/// Whether `c` is a digit of base `radix`.
pub open spec fn is_radix_digit(c: char, radix: int) -> bool {
    0 <= digit_of(c) < radix
}

/// The number that the digits of `text` spell in base `radix`, most
/// significant digit first. Underscores between digits do not count.
pub open spec fn literal_value(text: Seq<char>, radix: int) -> int
    decreases text.len(),
{
    if text.len() == 0 {
        0
    } else if text.last() == '_' {
        literal_value(text.drop_last(), radix)
    } else {
        literal_value(text.drop_last(), radix) * radix + digit_of(text.last())
    }
}

/// Whether `text` holds digits of base `radix` and underscores only, and
/// at least one digit.
pub open spec fn is_literal(text: Seq<char>, radix: int) -> bool {
    &&& forall|k: int|
        0 <= k < text.len() ==> #[trigger] text[k] == '_' || is_radix_digit(text[k], radix)
    &&& exists|k: int| 0 <= k < text.len() && #[trigger] text[k] != '_'
}

/// Whether a magnitude, with its sign, is in the range of a 64-bit signed
/// integer.
pub open spec fn fits(magnitude: int, negated: bool) -> bool {
    if negated {
        magnitude <= 0x8000_0000_0000_0000
    } else {
        magnitude <= 0x7fff_ffff_ffff_ffff
    }
}

/// The integer that `text` spells in base `radix`, negated on demand:
/// `None` where `text` is no literal of that base or the number is out of
/// range.
pub open spec fn integer_of(text: Seq<char>, negated: bool, radix: int) -> Option<i64> {
    let magnitude = literal_value(text, radix);
    if is_literal(text, radix) && fits(magnitude, negated) {
        Some(
            (if negated {
                -magnitude
            } else {
                magnitude
            }) as i64,
        )
    } else {
        None
    }
}

/// The digit that stands for `d`, in lower case from ten on.
pub open spec fn digit_char(d: int) -> char {
    if d < 10 {
        ('0' as int + d) as char
    } else {
        ('a' as int + d - 10) as char
    }
}

/// The digits of `n` in base `radix`, most significant first, without
/// leading zeros.
pub open spec fn digits_of(n: nat, radix: nat) -> Seq<char>
    decreases n,
{
    if radix < 2 || n < radix {
        seq![digit_char(n as int)]
    } else {
        proof {
            assert(n / radix < n) by (nonlinear_arith)
                requires
                    n >= radix,
                    radix >= 2,
            ;
        }
        digits_of(n / radix, radix).push(digit_char((n % radix) as int))
    }
}

/// A digit character has the value it stands for.
pub proof fn lemma_digit_char(d: int)
    requires
        0 <= d < 16,
    ensures
        digit_of(digit_char(d)) == d,
        digit_char(d) != '_',
{
}

/// Reading the digits of a number gives the number back.
pub proof fn lemma_digits_round_trip(n: nat, radix: nat)
    requires
        2 <= radix <= 16,
    ensures
        is_literal(digits_of(n, radix), radix as int),
        literal_value(digits_of(n, radix), radix as int) == n,
        forall|k: int|
            0 <= k < digits_of(n, radix).len() ==> is_radix_digit(
                #[trigger] digits_of(n, radix)[k],
                radix as int,
            ),
    decreases n,
{
    let text = digits_of(n, radix);
    if n < radix {
        lemma_digit_char(n as int);
        assert(text.drop_last() =~= Seq::<char>::empty());
        assert(literal_value(text.drop_last(), radix as int) == 0);
        assert(text.last() == digit_char(n as int));
        assert(text[0] != '_');
    } else {
        let high = n / radix;
        let low = n % radix;
        assert(high < n && high * radix + low == n) by (nonlinear_arith)
            requires
                n >= radix,
                radix >= 2,
                high == n / radix,
                low == n % radix,
        ;
        lemma_digits_round_trip(high, radix);
        lemma_digit_char(low as int);
        let head = digits_of(high, radix);
        assert(text.drop_last() =~= head);
        assert(text.last() == digit_char(low as int));
        assert(literal_value(text, radix as int) == literal_value(head, radix as int) * radix + low);
        assert forall|k: int| 0 <= k < text.len() implies is_radix_digit(
            #[trigger] text[k],
            radix as int,
        ) by {
            if k < head.len() {
                assert(text[k] == head[k]);
            }
        }
        let k = choose|k: int| 0 <= k < head.len() && #[trigger] head[k] != '_';
        assert(text[k] == head[k]);
    }
}

/// Reading a longer run of digits gives no smaller a number.
pub proof fn lemma_value_grows(text: Seq<char>, radix: int, k: int)
    requires
        radix >= 1,
        0 <= k <= text.len(),
        forall|j: int| 0 <= j < text.len() ==> #[trigger] text[j] == '_' || is_radix_digit(text[j], radix),
    ensures
        0 <= literal_value(text.take(k), radix) <= literal_value(text, radix),
    decreases text.len() - k,
{
    lemma_value_nonnegative(text.take(k), radix);
    if k < text.len() {
        lemma_value_grows(text, radix, k + 1);
        let longer = text.take(k + 1);
        assert(longer.drop_last() =~= text.take(k));
        assert(longer.last() == text[k]);
        let v = literal_value(text.take(k), radix);
        assert(v * radix >= v) by (nonlinear_arith)
            requires
                v >= 0,
                radix >= 1,
        ;
    } else {
        assert(text.take(k) =~= text);
    }
}

/// Digits spell no negative number.
pub proof fn lemma_value_nonnegative(text: Seq<char>, radix: int)
    requires
        radix >= 1,
        forall|j: int| 0 <= j < text.len() ==> #[trigger] text[j] == '_' || is_radix_digit(text[j], radix),
    ensures
        0 <= literal_value(text, radix),
    decreases text.len(),
{
    if text.len() > 0 {
        lemma_value_nonnegative(text.drop_last(), radix);
        let v = literal_value(text.drop_last(), radix);
        assert(v * radix >= 0) by (nonlinear_arith)
            requires
                v >= 0,
                radix >= 1,
        ;
    }
}

/// The value of `c` as a digit of base `radix`, if it is one.
pub fn to_digit(c: char, radix: u32) -> (r: Option<u32>)
    ensures
        r == (if is_radix_digit(c, radix as int) {
            Some(digit_of(c) as u32)
        } else {
            None
        }),
{
    let value: u32 = if '0' <= c && c <= '9' {
        c as u32 - '0' as u32
    } else if 'a' <= c && c <= 'f' {
        c as u32 - 'a' as u32 + 10
    } else if 'A' <= c && c <= 'F' {
        c as u32 - 'A' as u32 + 10
    } else {
        return None;
    };
    if value < radix {
        Some(value)
    } else {
        None
    }
}

/// Reads `text` from `start` on as an integer of base `radix`, with a
/// minus sign in front of it where `negated` is set.
pub fn parse_integer(text: &Vec<char>, start: usize, negated: bool, radix: u32) -> (r: Option<i64>)
    requires
        start <= text.len(),
        2 <= radix <= 16,
    ensures
        r == integer_of(text@.skip(start as int), negated, radix as int),
{
    let ghost digits = text@.skip(start as int);
    let limit: u128 = if negated {
        0x8000_0000_0000_0000
    } else {
        0x7fff_ffff_ffff_ffff
    };
    let mut magnitude: u128 = 0;
    let mut seen_digit = false;
    let mut i: usize = start;
    while i < text.len()
        invariant
            start <= i <= text.len(),
            digits == text@.skip(start as int),
            2 <= radix <= 16,
            limit == (if negated {
                0x8000_0000_0000_0000u128
            } else {
                0x7fff_ffff_ffff_ffffu128
            }),
            magnitude <= limit,
            magnitude == literal_value(digits.take(i - start), radix as int),
            forall|j: int|
                0 <= j < i - start ==> #[trigger] digits[j] == '_' || is_radix_digit(
                    digits[j],
                    radix as int,
                ),
            seen_digit == (exists|j: int| 0 <= j < i - start && #[trigger] digits[j] != '_'),
        decreases text.len() - i,
    {
        let c = text[i];
        let ghost k = i - start;
        assert(digits[k] == c);
        assert(digits.take(k + 1).drop_last() =~= digits.take(k));
        assert(digits.take(k + 1).last() == c);
        if c != '_' {
            let d = match to_digit(c, radix) {
                Some(d) => d,
                None => {
                    return None;
                },
            };
            assert(magnitude * radix <= 0x8000_0000_0000_0000 * 16) by (nonlinear_arith)
                requires
                    magnitude <= 0x8000_0000_0000_0000,
                    radix <= 16,
            ;
            let next = magnitude * (radix as u128) + d as u128;
            if next > limit {
                proof {
                    if is_literal(digits, radix as int) {
                        lemma_value_grows(digits, radix as int, k + 1);
                    }
                }
                return None;
            }
            magnitude = next;
            seen_digit = true;
        }
        i = i + 1;
    }
    assert(digits.take(i - start) =~= digits);
    if !seen_digit {
        return None;
    }
    if negated {
        if magnitude == 0x8000_0000_0000_0000 {
            Some(i64::MIN)
        } else {
            Some(-(magnitude as i64))
        }
    } else {
        Some(magnitude as i64)
    }
}

/// The digit that stands for `d`.
fn digit_to_char(d: u8) -> (c: char)
    requires
        d < 10,
    ensures
        c == digit_char(d as int),
{
    (48u8 + d) as char
}

/// Appends `n` in decimal notation to `s`.
pub fn push_decimal(s: &mut String, n: usize)
    ensures
        final(s)@ == old(s)@ + digits_of(n as nat, 10),
    decreases n,
{
    if n >= 10 {
        push_decimal(s, n / 10);
    }
    s.push(digit_to_char((n % 10) as u8));
    assert(final(s)@ =~= old(s)@ + digits_of(n as nat, 10));
}

} // verus!
