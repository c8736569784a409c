//! The editor's view of one line of text: a buffer of UTF-16 code units with
//! a cursor, read one unit or one whole character at a time.

use vstd::prelude::*;

verus! {

/// The code points that a `char` can hold: all but the surrogates.
pub open spec fn is_scalar_value(i: u32) -> bool {
    i <= 0xD7FF || (0xE000 <= i && i <= 0x10FFFF)
}

/// `char::from_u32` of the standard library: `Some` of the character with
/// that code point where the number is a scalar value, `None` for a
/// surrogate or a number above `0x10FFFF`.
pub assume_specification[ char::from_u32 ](i: u32) -> (r: Option<char>)
    ensures
        r == (if is_scalar_value(i) {
            Some(i as char)
        } else {
            None
        }),
;

/// Stands in for a code unit that is no character by itself.
pub const REPLACEMENT_CHARACTER: char = '\u{FFFD}';

/// The code units that begin a surrogate pair.
pub open spec fn is_high_surrogate(u: u16) -> bool {
    0xD800 <= u <= 0xDBFF
}

/// The code units that end a surrogate pair.
pub open spec fn is_low_surrogate(u: u16) -> bool {
    0xDC00 <= u <= 0xDFFF
}

/// The code units that are no character by themselves.
pub open spec fn is_surrogate(u: u16) -> bool {
    0xD800 <= u <= 0xDFFF
}

/// The code point that a high and a low surrogate stand for together.
pub open spec fn pair_code_point(high: u16, low: u16) -> int {
    0x10000 + (high - 0xD800) * 0x400 + (low - 0xDC00)
}

/// Whether `units` begins with a surrogate pair.
pub open spec fn starts_with_pair(units: Seq<u16>) -> bool {
    units.len() >= 2 && is_high_surrogate(units[0]) && is_low_surrogate(units[1])
}

/// The number of code units that the first character of `units` takes.
pub open spec fn first_width(units: Seq<u16>) -> int {
    if starts_with_pair(units) {
        2
    } else {
        1
    }
}

/// The first character of a non-empty `units`: the unit itself where it is
/// no surrogate, the paired code point where a pair begins there, and the
/// replacement character for a surrogate that stands alone.
pub open spec fn first_char(units: Seq<u16>) -> char {
    if !is_surrogate(units[0]) {
        units[0] as char
    } else if starts_with_pair(units) {
        pair_code_point(units[0], units[1]) as char
    } else {
        REPLACEMENT_CHARACTER
    }
}

/// The characters that a sequence of UTF-16 code units spells.
pub open spec fn decode_utf16(units: Seq<u16>) -> Seq<char>
    decreases units.len(),
{
    if units.len() == 0 {
        Seq::empty()
    } else {
        seq![first_char(units)] + decode_utf16(units.skip(first_width(units)))
    }
}

/// The number of code units that one character takes in UTF-16.
pub open spec fn char_width(c: char) -> int {
    if c as u32 >= 0x10000 {
        2
    } else {
        1
    }
}

/// The number of code units that `chars` takes in UTF-16.
pub open spec fn utf16_len(chars: Seq<char>) -> int
    decreases chars.len(),
{
    if chars.len() == 0 {
        0
    } else {
        char_width(chars[0]) + utf16_len(chars.skip(1))
    }
}

/// Decoding accounts for every code unit: the characters that come out take
/// as many units as went in.
pub proof fn lemma_decode_accounts_for_units(units: Seq<u16>)
    ensures
        utf16_len(decode_utf16(units)) == units.len(),
        decode_utf16(units).len() <= units.len(),
        units.len() > 0 ==> decode_utf16(units).len() > 0,
    decreases units.len(),
{
    if units.len() > 0 {
        let rest = units.skip(first_width(units));
        lemma_decode_accounts_for_units(rest);
        let chars = decode_utf16(units);
        assert(chars.skip(1) =~= decode_utf16(rest));
        assert(chars[0] == first_char(units));
    }
}

/// The code units that spell one character in UTF-16: the character
/// itself below `0x10000`, and a surrogate pair from there on.
pub open spec fn encode_char(c: char) -> Seq<u16> {
    if (c as u32) < 0x10000 {
        seq![c as u16]
    } else {
        seq![
            (0xD800 + (c as u32 - 0x10000) / 0x400) as u16,
            (0xDC00 + (c as u32 - 0x10000) % 0x400) as u16,
        ]
    }
}

/// The code units that spell `chars` in UTF-16.
pub open spec fn encode_utf16(chars: Seq<char>) -> Seq<u16>
    decreases chars.len(),
{
    if chars.len() == 0 {
        Seq::empty()
    } else {
        encode_char(chars[0]) + encode_utf16(chars.skip(1))
    }
}

/// The code units of a character read back as the character, whatever
/// follows them.
pub proof fn lemma_decode_of_encode_char(c: char, tail: Seq<u16>)
    ensures
        first_char(encode_char(c) + tail) == c,
        first_width(encode_char(c) + tail) == encode_char(c).len(),
        encode_char(c).len() == char_width(c),
{
    let units = encode_char(c) + tail;
    if (c as u32) < 0x10000 {
        assert(units[0] == c as u16);
    } else {
        let v = (c as u32 - 0x10000) as int;
        assert(units[0] == (0xD800 + v / 0x400) as u16);
        assert(units[1] == (0xDC00 + v % 0x400) as u16);
        assert(pair_code_point(units[0], units[1]) == c as u32);
    }
}

/// A text is read back from its code units as it was written: decoding
/// undoes encoding.
pub proof fn lemma_decode_of_encode(chars: Seq<char>)
    ensures
        decode_utf16(encode_utf16(chars)) == chars,
    decreases chars.len(),
{
    if chars.len() > 0 {
        let head = encode_char(chars[0]);
        let tail = encode_utf16(chars.skip(1));
        let units = head + tail;
        lemma_decode_of_encode(chars.skip(1));
        lemma_decode_of_encode_char(chars[0], tail);
        assert(units.skip(head.len() as int) =~= tail);
        assert(decode_utf16(units) =~= seq![chars[0]] + decode_utf16(tail));
        assert(seq![chars[0]] + chars.skip(1) =~= chars);
    }
}

/// One line of text as the editor hands it to a mode.
pub struct StringStream {
    string: Vec<u16>,
    pos: usize,
    indentation: u32,
}

impl StringStream {
    /// What holds of every stream: the cursor stands inside the line.
    #[verifier::type_invariant]
    pub closed spec fn well_formed(self) -> bool {
        self.pos <= self.string.len()
    }

    /// The sizes of a stream are those of a buffer in memory.
    pub proof fn lemma_bounds(self)
        requires
            self.well_formed(),
        ensures
            0 <= self.position() <= self.units().len() <= usize::MAX,
            self.remaining().len() <= self.units().len() - self.position(),
            self.position() + utf16_len(self.remaining()) == self.units().len(),
            self.remaining().len() == 0 <==> self.position() == self.units().len(),
    {
        lemma_decode_accounts_for_units(self.rest());
    }

    /// Whether this stream is what `start` becomes by reading `n`
    /// characters.
    pub open spec fn has_read(self, start: StringStream, n: int) -> bool {
        &&& self.units() == start.units()
        &&& self.line_indentation() == start.line_indentation()
        &&& 0 <= n <= start.remaining().len()
        &&& self.remaining() == start.remaining().skip(n)
    }

    /// The whole line, in UTF-16 code units.
    pub closed spec fn units(&self) -> Seq<u16> {
        self.string@
    }

    /// The cursor: how many code units of the line have been consumed.
    pub closed spec fn position(&self) -> int {
        self.pos as int
    }

    /// The indentation of the line, as the editor measured it.
    pub closed spec fn line_indentation(&self) -> u32 {
        self.indentation
    }

    /// The code units from the cursor to the end of the line.
    pub open spec fn rest(&self) -> Seq<u16> {
        self.units().skip(self.position())
    }

    /// The characters from the cursor to the end of the line.
    pub open spec fn remaining(&self) -> Seq<char> {
        decode_utf16(self.rest())
    }

    /// A stream at the start of the line `string`.
    pub fn new(string: Vec<u16>, indentation: u32) -> (stream: Self)
        ensures
            stream.units() == string@,
            stream.position() == 0,
            stream.line_indentation() == indentation,
    {
        StringStream { string, pos: 0, indentation }
    }

    /// The length of the line, in code units.
    pub fn len(&self) -> (n: usize)
        ensures
            n == self.units().len(),
    {
        self.string.len()
    }

    /// The cursor. It stands where the characters that remain begin.
    pub fn pos(&self) -> (p: usize)
        ensures
            p == self.position(),
            0 <= self.position() <= self.units().len(),
            self.position() + utf16_len(self.remaining()) == self.units().len(),
    {
        proof {
            use_type_invariant(self);
            lemma_decode_accounts_for_units(self.rest());
        }
        self.pos
    }

    /// True at the start of the line.
    pub fn sol(&self) -> (b: bool)
        ensures
            b == (self.position() == 0),
    {
        self.pos == 0
    }

    /// True at the end of the line.
    pub fn eol(&self) -> (b: bool)
        ensures
            b == (self.position() >= self.units().len()),
            b == (self.remaining().len() == 0),
    {
        proof {
            use_type_invariant(self);
            lemma_decode_accounts_for_units(self.rest());
        }
        self.pos >= self.string.len()
    }

    /// The indentation of the line.
    pub fn indentation(&self) -> (n: u32)
        ensures
            n == self.line_indentation(),
    {
        self.indentation
    }

    /// The next code unit, if any, without consuming it.
    pub fn peek(&self) -> (r: Option<u16>)
        ensures
            r == (if self.position() < self.units().len() {
                Some(self.units()[self.position()])
            } else {
                None
            }),
    {
        proof {
            use_type_invariant(self);
        }
        if self.pos < self.string.len() {
            Some(self.string[self.pos])
        } else {
            None
        }
    }

    /// Consumes and returns the next code unit, if any.
    pub fn next(&mut self) -> (r: Option<u16>)
        ensures
            final(self).units() == old(self).units(),
            final(self).line_indentation() == old(self).line_indentation(),
            r == (if old(self).position() < old(self).units().len() {
                Some(old(self).units()[old(self).position()])
            } else {
                None
            }),
            final(self).position() == old(self).position() + (if r is Some {
                1int
            } else {
                0int
            }),
    {
        proof {
            use_type_invariant(&*self);
        }
        if self.pos < self.string.len() {
            let unit = self.string[self.pos];
            self.pos = self.pos + 1;
            Some(unit)
        } else {
            None
        }
    }

    /// Takes back the last `n` code units that were consumed.
    pub fn back_up(&mut self, n: u32)
        requires
            n <= old(self).position(),
        ensures
            final(self).units() == old(self).units(),
            final(self).line_indentation() == old(self).line_indentation(),
            final(self).position() == old(self).position() - n,
    {
        proof {
            use_type_invariant(&*self);
        }
        self.pos = self.pos - n as usize;
    }

    /// Consumes the rest of the line.
    pub fn skip_to_end(&mut self)
        ensures
            final(self).units() == old(self).units(),
            final(self).line_indentation() == old(self).line_indentation(),
            final(self).position() == old(self).units().len(),
            final(self).remaining() == Seq::<char>::empty(),
    {
        self.pos = self.string.len();
        assert(self.rest() =~= Seq::<u16>::empty());
    }

    /// The next character, if any, without consuming it. A surrogate that
    /// is not part of a pair reads as the replacement character.
    pub fn peek_next(&self) -> (r: Option<char>)
        ensures
            r == (if self.remaining().len() > 0 {
                Some(self.remaining()[0])
            } else {
                None
            }),
    {
        proof {
            use_type_invariant(self);
            lemma_decode_accounts_for_units(self.rest());
        }
        if self.pos >= self.string.len() {
            return None;
        }
        let first = self.string[self.pos];
        assert(self.rest()[0] == first);
        match char::from_u32(first as u32) {
            Some(c) => Some(c),
            None => {
                if self.string.len() - self.pos < 2 {
                    return Some(REPLACEMENT_CHARACTER);
                }
                let second = self.string[self.pos + 1];
                assert(self.rest()[1] == second);
                Some(decode_pair(first, second))
            },
        }
    }

    /// Consumes and returns the next character, if any. A high and a low
    /// surrogate in a row make one character; a surrogate that stands alone
    /// is consumed by itself and reads as the replacement character.
    pub fn get_next(&mut self) -> (r: Option<char>)
        ensures
            final(self).units() == old(self).units(),
            final(self).line_indentation() == old(self).line_indentation(),
            r == (if old(self).remaining().len() > 0 {
                Some(old(self).remaining()[0])
            } else {
                None
            }),
            final(self).remaining() == (if old(self).remaining().len() > 0 {
                old(self).remaining().skip(1)
            } else {
                old(self).remaining()
            }),
            final(self).position() == old(self).position() + (match r {
                Some(c) => char_width(c),
                None => 0,
            }),
    {
        proof {
            use_type_invariant(&*self);
            lemma_decode_accounts_for_units(self.rest());
        }
        let ghost before = self.rest();
        let first = match self.next() {
            Some(unit) => unit,
            None => {
                return None;
            },
        };
        assert(before[0] == first);
        assert(before.skip(1) =~= self.rest());
        match char::from_u32(first as u32) {
            Some(c) => {
                assert(decode_utf16(before).skip(1) =~= decode_utf16(before.skip(1)));
                Some(c)
            },
            None => {
                // A surrogate: one more unit may complete it.
                let second = match self.next() {
                    Some(unit) => unit,
                    None => {
                        assert(decode_utf16(before).skip(1) =~= decode_utf16(before.skip(1)));
                        return Some(REPLACEMENT_CHARACTER);
                    },
                };
                assert(before[1] == second);
                if is_pair(first, second) {
                    assert(before.skip(2) =~= self.rest());
                    assert(decode_utf16(before).skip(1) =~= decode_utf16(before.skip(2)));
                    Some(decode_pair(first, second))
                } else {
                    // No pair after all: the second unit is read again on
                    // its own.
                    self.back_up(1);
                    assert(before.skip(1) =~= self.rest());
                    assert(decode_utf16(before).skip(1) =~= decode_utf16(before.skip(1)));
                    Some(REPLACEMENT_CHARACTER)
                }
            },
        }
    }
}

/// Whether `first` and `second` are a high and a low surrogate.
fn is_pair(first: u16, second: u16) -> (b: bool)
    ensures
        b == (is_high_surrogate(first) && is_low_surrogate(second)),
{
    0xD800 <= first && first <= 0xDBFF && 0xDC00 <= second && second <= 0xDFFF
}

/// The character that a surrogate `first` reads as when `second` follows
/// it.
fn decode_pair(first: u16, second: u16) -> (c: char)
    requires
        is_surrogate(first),
    ensures
        c == first_char(seq![first, second]),
{
    if is_pair(first, second) {
        let high: u32 = (first - 0xD800) as u32;
        let low: u32 = (second - 0xDC00) as u32;
        let code: u32 = 0x10000 + high * 0x400 + low;
        match char::from_u32(code) {
            Some(c) => c,
            None => REPLACEMENT_CHARACTER,
        }
    } else {
        REPLACEMENT_CHARACTER
    }
}

} // verus!
