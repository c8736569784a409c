use rhai_mode::cm_rhai_mode::chars::{blank, digit, identifier_part, letter, spells, string_of};

#[test]
fn white_space_is_what_the_standard_library_counts_as_such() {
    for code in 0..=0x10FFFFu32 {
        if let Some(c) = char::from_u32(code) {
            assert_eq!(blank(c), c.is_whitespace(), "{:?}", c);
        }
    }
}

#[test]
fn white_space_in_ascii() {
    for c in [' ', '\t', '\n', '\u{b}', '\u{c}', '\r'] {
        assert!(blank(c), "{:?}", c);
    }
    for c in ['\u{0}', '\u{8}', '\u{e}', '\u{1f}', '!', '0', 'a', '_', '}', '\u{7f}'] {
        assert!(!blank(c), "{:?}", c);
    }
    assert!(blank('\u{85}'));
    assert!(blank('\u{a0}'));
    assert!(blank('\u{3000}'));
    assert!(!blank('\u{200b}'));
    assert!(!blank('越'));
}

#[test]
fn character_classes() {
    for c in '0'..='9' {
        assert!(digit(c) && !letter(c) && identifier_part(c));
    }
    for c in ('a'..='z').chain('A'..='Z') {
        assert!(letter(c) && !digit(c) && identifier_part(c));
    }
    assert!(identifier_part('_') && !letter('_') && !digit('_'));
    for c in ['/', ':', '@', '[', '`', '{', ' ', 'é', '٣'] {
        assert!(!digit(c) && !letter(c) && !identifier_part(c), "{:?}", c);
    }
}

#[test]
fn texts() {
    let chars: Vec<char> = "fn é😀".chars().collect();
    assert_eq!(string_of(&chars), "fn é😀");
    assert_eq!(string_of(&Vec::new()), "");
    assert!(spells(&chars, "fn é😀"));
    assert!(!spells(&chars, "fn é"));
    assert!(!spells(&chars, "fn é😀 "));
    assert!(!spells(&chars, "fn e😀"));
    assert!(spells(&Vec::new(), ""));
}
