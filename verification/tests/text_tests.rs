use thethacore::text::{
    chars_of, find_all, is_whitespace, skip, spells, split_on, string_of, trim, trim_leading,
    trim_trailing, CharClass,
};

fn letters(s: &str) -> Vec<char> {
    s.chars().collect()
}

fn joined(s: &[char]) -> String {
    s.iter().collect()
}

#[test]
fn white_space_is_what_the_standard_library_calls_so() {
    let mut count = 0;
    for code in 0..=0x10FFFFu32 {
        if let Some(c) = char::from_u32(code) {
            assert_eq!(is_whitespace(c), c.is_whitespace(), "U+{:04X}", code);
            assert_eq!(CharClass::Space.contains(c), c.is_whitespace());
            if is_whitespace(c) {
                count += 1;
            }
        }
    }
    assert_eq!(count, 25);
}

#[test]
fn character_classes() {
    for c in ['0', '5', '9'] {
        assert!(CharClass::Digit.contains(c));
        assert!(CharClass::Word.contains(c));
        assert!(!CharClass::Space.contains(c));
    }
    for c in ['a', 'Z', '_', 'é', 'ß', '名'] {
        assert!(CharClass::Word.contains(c), "{}", c);
        assert!(!CharClass::Digit.contains(c));
    }
    for c in ['-', '=', '<', '>', ' ', '.', '"', '/', '#', '\u{0}'] {
        assert!(!CharClass::Word.contains(c), "{}", c);
    }
    assert!(!CharClass::Digit.contains('/'));
    assert!(!CharClass::Digit.contains(':'));
    assert!(!CharClass::Digit.contains('٣'));
}

#[test]
fn word_class_follows_the_standard_library() {
    for code in 0..=0x10FFFFu32 {
        if let Some(c) = char::from_u32(code) {
            assert_eq!(CharClass::Word.contains(c), c == '_' || c.is_alphanumeric());
        }
    }
}

#[test]
fn runs_are_skipped() {
    let text = letters("abc_1  ==  x");
    assert_eq!(skip(&text, CharClass::Word, 0), 5);
    assert_eq!(skip(&text, CharClass::Space, 5), 7);
    assert_eq!(skip(&text, CharClass::Space, 0), 0);
    assert_eq!(skip(&text, CharClass::Digit, 4), 5);
    assert_eq!(skip(&text, CharClass::Word, 11), 12);
    assert_eq!(skip(&text, CharClass::Word, 12), 12);
    assert_eq!(skip(&text, CharClass::Word, 40), 40);
    assert_eq!(skip(&[], CharClass::Word, 0), 0);
}

#[test]
fn trimming() {
    assert_eq!(joined(trim(&letters("  a b \t\r\n"))), "a b");
    assert_eq!(joined(trim(&letters("a"))), "a");
    assert_eq!(joined(trim(&letters(""))), "");
    assert_eq!(joined(trim(&letters(" \u{a0}\u{3000} "))), "");
    assert_eq!(joined(trim_leading(&letters("  a  "))), "a  ");
    assert_eq!(joined(trim_trailing(&letters("  a  "))), "  a");
    for sample in ["", " ", "x", " x", "x ", "\u{2003}x y\u{85}", "\t\t", "a\u{200b}"] {
        assert_eq!(joined(trim(&letters(sample))), sample.trim());
        assert_eq!(joined(trim_leading(&letters(sample))), sample.trim_start());
        assert_eq!(joined(trim_trailing(&letters(sample))), sample.trim_end());
    }
}

#[test]
fn occurrences_are_found() {
    assert_eq!(find_all(&letters("a,b,,c"), ','), vec![1, 3, 4]);
    assert_eq!(find_all(&letters("abc"), ','), Vec::<usize>::new());
    assert_eq!(find_all(&letters(""), ','), Vec::<usize>::new());
    assert_eq!(find_all(&letters(",,"), ','), vec![0, 1]);
}

#[test]
fn splitting() {
    for (sample, sep) in [
        ("a\nb\nc", '\n'),
        ("a\nb\n", '\n'),
        ("", '\n'),
        ("\n", '\n'),
        ("\n\nx", '\n'),
        ("no separator", '\n'),
        ("a<b<c", '<'),
        ("<<", '<'),
    ] {
        let text = letters(sample);
        let parts: Vec<String> = split_on(&text, sep).iter().map(|p| joined(p)).collect();
        let expected: Vec<String> = sample.split(sep).map(|p| p.to_string()).collect();
        assert_eq!(parts, expected, "{:?}", sample);
    }
    let text = letters("one,two");
    let parts = split_on(&text, ',');
    assert_eq!(parts.len(), 2);
    assert_eq!(joined(parts[0]), "one");
    assert_eq!(joined(parts[1]), "two");
}

#[test]
fn texts_and_characters_convert() {
    assert_eq!(chars_of("héllo"), vec!['h', 'é', 'l', 'l', 'o']);
    assert_eq!(chars_of(""), Vec::<char>::new());
    assert_eq!(string_of(&['a', 'ß', '名']), "aß名");
    assert_eq!(string_of(&[]), "");
    assert_eq!(string_of(&chars_of("round trip ✓")), "round trip ✓");
}

#[test]
fn spelling() {
    assert!(spells(&letters("True"), "True"));
    assert!(!spells(&letters("true"), "True"));
    assert!(!spells(&letters("Tru"), "True"));
    assert!(!spells(&letters("Truer"), "True"));
    assert!(spells(&letters(""), ""));
    assert!(!spells(&letters(""), "x"));
}
