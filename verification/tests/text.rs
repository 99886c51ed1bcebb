use disksun::text::{
    chars_of, contains, esc, parse_number, push_decimal, same, shell_quote, space, starts_with,
    string_of, trim, trim_end_matches, truncate, unesc,
};

#[test]
fn escaping_marks_backslash_newline_and_tab() {
    assert_eq!(esc("plain"), "plain");
    assert_eq!(esc("a\\b\nc\td"), "a\\\\b\\nc\\td");
    assert_eq!(esc(""), "");
}

#[test]
fn unescaping_takes_any_escaped_character() {
    assert_eq!(unesc("a\\\\b\\nc\\td"), "a\\b\nc\td");
    assert_eq!(unesc("\\x\\\"end\\"), "x\"end");
}

#[test]
fn unescaping_undoes_escaping() {
    for s in ["", "\\", "\\n", "\n\t\\", "naïve\tname\\", "tab\\ttab\ttab"] {
        assert_eq!(unesc(&esc(s)), s);
        assert!(!esc(s).contains('\t') && !esc(s).contains('\n'));
    }
}

#[test]
fn escaping_goes_part_by_part() {
    for a in ["", "a\\", "\n", "x\ty"] {
        for b in ["", "n", "\\", "\tz"] {
            let both = format!("{a}{b}");
            assert_eq!(esc(&both), format!("{}{}", esc(a), esc(b)));
            assert_eq!(unesc(&format!("{}{b}", esc(a))), format!("{a}{}", unesc(b)));
        }
    }
}

#[test]
fn quoting_gives_one_word_to_the_shell() {
    assert_eq!(shell_quote("/usr/bin/disksun"), "'/usr/bin/disksun'");
    assert_eq!(shell_quote("it's $HOME"), "'it'\\''s $HOME'");
    assert_eq!(shell_quote(""), "''");
}

#[test]
fn long_names_end_in_an_ellipsis() {
    assert_eq!(truncate("abcdef", 6), "abcdef");
    assert_eq!(truncate("abcdef", 5), "abcd…");
    assert_eq!(truncate("äöüß", 3), "äö…");
    assert_eq!(truncate("abc", 1), "…");
    assert_eq!(truncate("abc", 0), "…");
    assert_eq!(truncate("", 0), "");
    for n in 0..8 {
        assert_eq!(truncate(&truncate("abcdef", n), n), truncate("abcdef", n));
    }
}

#[test]
fn trimming_takes_white_space_off_both_ends() {
    for s in ["  a b \n", "", " \t ", "\u{2003}x\u{a0}", "x", "\u{200b}x"] {
        assert_eq!(trim(s), s.trim());
    }
}

#[test]
fn white_space_is_what_unicode_calls_so() {
    for n in 0..0x3100u32 {
        if let Some(c) = char::from_u32(n) {
            assert_eq!(space(c), c.is_whitespace(), "{n:x}");
        }
    }
}

#[test]
fn tails_are_taken_off_as_often_as_they_stand_there() {
    let tail = " · smaller items";
    for s in ["a", "a · smaller items", "a · smaller items · smaller items", " · smaller items"] {
        assert_eq!(trim_end_matches(s, tail), s.trim_end_matches(tail));
    }
}

#[test]
fn searching_finds_text_anywhere() {
    assert!(contains("FAIL\n", "FAIL"));
    assert!(contains("xFAIL", "FAIL"));
    assert!(!contains("FAI", "FAIL"));
    assert!(!contains("FA IL", "FAIL"));
    assert!(contains("abc", ""));
    assert!(contains("", ""));
}

#[test]
fn numbers_are_written_and_read_in_decimal() {
    for n in [0u64, 7, 10, 4096, u64::MAX] {
        let mut s = String::new();
        push_decimal(&mut s, n as u128);
        assert_eq!(s, n.to_string());
        assert_eq!(parse_number(&chars_of(&s), u64::MAX), Some(n));
    }
    for s in ["", "+", "-1", "1x", " 1", "18446744073709551616", "99999999999999999999999"] {
        assert_eq!(parse_number(&chars_of(s), u64::MAX), None, "{s}");
    }
    assert_eq!(parse_number(&chars_of("+12"), u64::MAX), "+12".parse::<u64>().ok());
    assert_eq!(parse_number(&chars_of("007"), u64::MAX), Some(7));
    assert_eq!(parse_number(&chars_of("256"), 255), None);
    assert_eq!(parse_number(&chars_of("255"), 255), Some(255));
}

#[test]
fn characters_go_to_a_string_and_back() {
    let v = chars_of("aß…");
    assert_eq!(v, vec!['a', 'ß', '…']);
    assert_eq!(string_of(&v), "aß…");
    assert!(same(&v, "aß…"));
    assert!(!same(&v, "aß"));
    assert!(starts_with(&v, "aß"));
    assert!(!starts_with(&v, "ß"));
    assert!(!starts_with(&v, "aß……"));
}
