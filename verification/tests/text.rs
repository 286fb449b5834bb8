use mitos_system_monitor::text;

const SAMPLES: [&str; 12] = [
    "",
    " ",
    "one",
    "  one two\tthree \n",
    "a\u{3000}b\u{a0}c",
    "line one\nline two\r\nline three",
    "\n\n",
    "x\r\ny\r",
    "\r\n\r\nz\n",
    "crab \u{1f980} and \u{e9}t\u{e9}\n end  ",
    "\u{85}edge\u{2028}case\u{205f}",
    "tail\r\r\n",
];

#[test]
fn whitespace_is_the_unicode_property() {
    for n in 0..=0x10ffffu32 {
        if let Some(c) = char::from_u32(n) {
            assert_eq!(text::is_whitespace(c), c.is_whitespace(), "U+{:04X}", n);
        }
    }
}

#[test]
fn chars_keep_their_order() {
    assert_eq!(text::chars_of("a\u{1f980}b"), vec!['a', '\u{1f980}', 'b']);
    assert_eq!(text::slice_string(&vec!['a', 'b', 'c', 'd'], 1, 3), "bc");
}

#[test]
fn words_are_split_at_whitespace() {
    for s in SAMPLES {
        let expected: Vec<String> = s.split_whitespace().map(|w| w.to_string()).collect();
        assert_eq!(text::split_whitespace(s), expected, "{:?}", s);
    }
}

#[test]
fn lines_are_split_at_line_endings() {
    for s in SAMPLES {
        let expected: Vec<String> = s.lines().map(|w| w.to_string()).collect();
        assert_eq!(text::split_lines(s), expected, "{:?}", s);
    }
    assert_eq!(text::split_lines("a\r\nb\r"), vec!["a".to_string(), "b\r".to_string()]);
}

#[test]
fn trimming_takes_whitespace_off_the_ends() {
    for s in SAMPLES {
        assert_eq!(text::trim(s), s.trim());
        assert_eq!(text::trim_end(s), s.trim_end());
    }
}

#[test]
fn substrings_are_found() {
    for s in SAMPLES {
        for part in ["", "o", "on", "two", "\r\n", "\u{1f980} a", "zzz", "line one\nline"] {
            assert_eq!(text::contains(s, part), s.contains(part), "{:?} in {:?}", part, s);
            assert_eq!(text::starts_with(s, part), s.starts_with(part));
        }
    }
}

#[test]
fn both_ends_are_stripped() {
    assert_eq!(text::strip_both("<x>", "<", ">"), Some("x".to_string()));
    assert_eq!(text::strip_both("<>", "<", ">"), Some(String::new()));
    assert_eq!(text::strip_both("<", "<", "<"), None);
    assert_eq!(text::strip_both("x>", "<", ">"), None);
    assert_eq!(text::strip_both("<x", "<", ">"), None);
    assert_eq!(text::strip_both("", "<", ">"), None);
}

#[test]
fn numbers_are_written_in_decimal() {
    for n in [0u64, 1, 9, 10, 99, 100, 12345, u32::MAX as u64, u64::MAX] {
        assert_eq!(text::decimal_string(n), n.to_string());
        let mut padded = String::from("L");
        text::push_padded(&mut padded, n, 4);
        assert_eq!(padded, format!("L{:04}", n));
    }
}

#[test]
fn numbers_are_parsed() {
    for s in [
        "", "+", "-", "0", "007", "+42", "++1", "-1", "12a", "a12", " 1", "1 ", "4294967295",
        "4294967296", "18446744073709551615", "18446744073709551616",
        "00000000000000000000000000000001", "99999999999999999999999", "\u{661}",
    ] {
        assert_eq!(text::parse_u64(s), s.parse::<u64>().ok(), "{:?}", s);
        assert_eq!(text::parse_u32(s), s.parse::<u32>().ok(), "{:?}", s);
    }
}

#[test]
fn decimal_notation_reads_back() {
    for n in [0u64, 7, 10, 8080, 4294967296, u64::MAX] {
        assert_eq!(text::parse_u64(&text::decimal_string(n)), Some(n));
    }
}

#[test]
fn texts_are_joined() {
    let list = vec!["a".to_string(), String::new(), "c".to_string()];
    assert_eq!(text::join(&list, " "), "a  c");
    assert_eq!(text::join(&vec!["only".to_string()], ", "), "only");
    assert_eq!(text::join(&Vec::new(), ", "), "");
}
