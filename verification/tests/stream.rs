use rhai_mode::codemirror::{StringStream, REPLACEMENT_CHARACTER};

fn stream(text: &str) -> StringStream {
    StringStream::new(text.encode_utf16().collect(), 4)
}

#[test]
fn a_new_stream_stands_at_the_start_of_the_line() {
    let s = stream("ab");
    assert!(s.sol());
    assert!(!s.eol());
    assert_eq!(s.pos(), 0);
    assert_eq!(s.len(), 2);
    assert_eq!(s.indentation(), 4);
    let empty = stream("");
    assert!(empty.sol());
    assert!(empty.eol());
}

#[test]
fn units_are_read_one_by_one() {
    let mut s = stream("ab");
    assert_eq!(s.peek(), Some('a' as u16));
    assert_eq!(s.next(), Some('a' as u16));
    assert!(!s.sol());
    assert_eq!(s.pos(), 1);
    assert_eq!(s.next(), Some('b' as u16));
    assert!(s.eol());
    assert_eq!(s.peek(), None);
    assert_eq!(s.next(), None);
    assert_eq!(s.pos(), 2);
    assert_eq!(s.indentation(), 4);
}

#[test]
fn back_up_takes_units_back() {
    let mut s = stream("abc");
    s.next();
    s.next();
    s.next();
    s.back_up(2);
    assert_eq!(s.pos(), 1);
    assert_eq!(s.next(), Some('b' as u16));
    s.back_up(0);
    assert_eq!(s.pos(), 2);
}

#[test]
fn skip_to_end_reads_the_rest() {
    let mut s = stream("abc");
    s.next();
    s.skip_to_end();
    assert!(s.eol());
    assert_eq!(s.pos(), 3);
    assert_eq!(s.get_next(), None);
}

#[test]
fn characters_of_one_unit() {
    let mut s = stream("aé€");
    assert_eq!(s.peek_next(), Some('a'));
    assert_eq!(s.get_next(), Some('a'));
    assert_eq!(s.get_next(), Some('é'));
    assert_eq!(s.peek_next(), Some('€'));
    assert_eq!(s.pos(), 2);
    assert_eq!(s.get_next(), Some('€'));
    assert_eq!(s.peek_next(), None);
    assert_eq!(s.get_next(), None);
    assert_eq!(s.pos(), 3);
}

#[test]
fn a_surrogate_pair_is_one_character() {
    let mut s = stream("😀x");
    assert_eq!(s.peek_next(), Some('😀'));
    assert_eq!(s.pos(), 0);
    assert_eq!(s.get_next(), Some('😀'));
    assert_eq!(s.pos(), 2);
    assert_eq!(s.get_next(), Some('x'));
    let mut s = StringStream::new(vec![0xD800, 0xDC00, 0xDBFF, 0xDFFF], 0);
    assert_eq!(s.get_next(), Some('\u{10000}'));
    assert_eq!(s.get_next(), Some('\u{10FFFF}'));
    assert_eq!(s.get_next(), None);
}

#[test]
fn a_lone_surrogate_reads_as_the_replacement_character() {
    // A high surrogate before a character that is no low surrogate: the
    // character is read again on its own.
    let mut s = StringStream::new(vec![0xD83D, 'x' as u16], 0);
    assert_eq!(s.peek_next(), Some(REPLACEMENT_CHARACTER));
    assert_eq!(s.pos(), 0);
    assert_eq!(s.get_next(), Some(REPLACEMENT_CHARACTER));
    assert_eq!(s.pos(), 1);
    assert_eq!(s.get_next(), Some('x'));
    // A low surrogate first.
    let mut s = StringStream::new(vec![0xDE00, 0xD83D, 0xDE00], 0);
    assert_eq!(s.get_next(), Some(REPLACEMENT_CHARACTER));
    assert_eq!(s.pos(), 1);
    assert_eq!(s.get_next(), Some('😀'));
    // A high surrogate at the end of the line.
    let mut s = StringStream::new(vec![0xD83D], 0);
    assert_eq!(s.peek_next(), Some(REPLACEMENT_CHARACTER));
    assert_eq!(s.pos(), 0);
    assert_eq!(s.get_next(), Some(REPLACEMENT_CHARACTER));
    assert!(s.eol());
    // Two high surrogates and a low one.
    let mut s = StringStream::new(vec![0xD83D, 0xD83D, 0xDE00], 0);
    assert_eq!(s.get_next(), Some(REPLACEMENT_CHARACTER));
    assert_eq!(s.get_next(), Some('😀'));
    assert_eq!(REPLACEMENT_CHARACTER, '\u{FFFD}');
}

#[test]
fn a_text_is_read_back_as_it_was_written() {
    for text in ["", "let x = 1;", "aé€😀z", "\u{10000}\u{10FFFF}\u{FFFF}\u{D7FF}\u{E000}"] {
        let mut s = stream(text);
        let mut read = String::new();
        while let Some(c) = s.get_next() {
            read.push(c);
        }
        assert_eq!(read, text);
        assert!(s.eol());
        assert_eq!(s.pos(), text.encode_utf16().count());
    }
}
