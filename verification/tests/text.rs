use fuzzy_ssh::text::{lowercase_of, rank, scan, string_of, to_chars, CharClass, Rank};

#[test]
fn a_text_is_its_characters() {
    assert_eq!(to_chars(""), Vec::<char>::new());
    assert_eq!(to_chars("a é\n∂"), vec!['a', ' ', 'é', '\n', '∂']);
    let chars = to_chars("Héllo Wörld");
    assert_eq!(string_of(&chars, 0, chars.len()), "Héllo Wörld");
    assert_eq!(string_of(&chars, 6, 9), "Wör");
    assert_eq!(string_of(&chars, 4, 4), "");
}

#[test]
fn only_ascii_capitals_are_lowered() {
    let chars = to_chars("AZaz@[ÀÉ09 Host");
    assert_eq!(lowercase_of(&chars, 0, chars.len()), "azaz@[ÀÉ09 host");
    assert_eq!(lowercase_of(&chars, 1, 3), "za");
}

#[test]
fn classes_hold_their_characters() {
    for c in ['a', 'z', 'A', 'Z', 'm'] {
        assert!(CharClass::Alpha.accepts(c));
    }
    for c in ['@', '[', '`', '{', '0', ' ', 'é', '_'] {
        assert!(!CharClass::Alpha.accepts(c));
    }
    for c in [' ', '\t'] {
        assert!(CharClass::Blank.accepts(c));
        assert!(CharClass::Space.accepts(c));
        assert!(!CharClass::Visible.accepts(c));
    }
    for c in ['\n', '\r'] {
        assert!(!CharClass::Blank.accepts(c));
        assert!(CharClass::Space.accepts(c));
        assert!(!CharClass::Visible.accepts(c));
    }
    for c in ['a', '"', '=', '\u{b}', '\u{a0}'] {
        assert!(!CharClass::Space.accepts(c));
        assert!(CharClass::Visible.accepts(c));
    }
    assert!(!CharClass::Unquoted.accepts('"'));
    assert!(CharClass::Unquoted.accepts('\n'));
    assert!(CharClass::Unquoted.accepts('\''));
}

#[test]
fn a_scan_stops_at_the_first_character_outside_the_class() {
    let chars = to_chars("abc  \tdef\n");
    assert_eq!(scan(&chars, 0, CharClass::Alpha), 3);
    assert_eq!(scan(&chars, 1, CharClass::Alpha), 3);
    assert_eq!(scan(&chars, 3, CharClass::Alpha), 3);
    assert_eq!(scan(&chars, 3, CharClass::Blank), 6);
    assert_eq!(scan(&chars, 3, CharClass::Space), 6);
    assert_eq!(scan(&chars, 6, CharClass::Visible), 9);
    assert_eq!(scan(&chars, 9, CharClass::Space), 10);
    assert_eq!(scan(&chars, 0, CharClass::Unquoted), 10);
    assert_eq!(scan(&chars, 10, CharClass::Unquoted), 10);
    assert_eq!(scan(&chars, 12, CharClass::Unquoted), 12);
}

#[test]
fn strings_are_ranked_by_code_point() {
    assert_eq!(rank("", ""), Rank::Same);
    assert_eq!(rank("abc", "abc"), Rank::Same);
    assert_eq!(rank("", "a"), Rank::Before);
    assert_eq!(rank("a", ""), Rank::After);
    assert_eq!(rank("ab", "abc"), Rank::Before);
    assert_eq!(rank("abd", "abc"), Rank::After);
    assert_eq!(rank("B", "a"), Rank::Before);
    assert_eq!(rank("z", "é"), Rank::Before);
    assert_eq!(rank("\u{10000}", "\u{ffff}"), Rank::After);
    for (a, b) in [("x", "y"), ("host", "hostname"), ("é", "e"), ("", "")] {
        let expected = match a.cmp(b) {
            std::cmp::Ordering::Less => Rank::Before,
            std::cmp::Ordering::Equal => Rank::Same,
            std::cmp::Ordering::Greater => Rank::After,
        };
        assert_eq!(rank(a, b), expected);
    }
}
