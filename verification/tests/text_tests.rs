use rpi_monitor::text::{
    is_whitespace,
    chars_of, join_ranges, line_ranges, parse_range, push_decimal, remove_all_range,
    strip_hex_marks_range, string_of_range, trim_char_range, trim_range, trimmed, word_ranges,
};

fn pieces(s: &[char], rs: &[(usize, usize)]) -> Vec<String> {
    rs.iter().map(|&(a, b)| s[a..b].iter().collect()).collect()
}

#[test]
fn trimmed_removes_unicode_white_space() {
    assert_eq!(trimmed("  a b \n"), "a b");
    assert_eq!(trimmed("\u{3000}x\u{85}"), "x");
    assert_eq!(trimmed(" \t\r\n"), "");
    assert_eq!(trimmed("inner  space"), "inner  space");
}

#[test]
fn trim_range_gives_bounds() {
    let s = chars_of("  abc  ");
    assert_eq!(trim_range(&s, 0, s.len()), (2, 5));
    assert_eq!(trim_range(&s, 0, 2), (2, 2));
}

#[test]
fn lines_follow_str_lines() {
    let s = chars_of("a\r\nb\n\nc\rd");
    assert_eq!(pieces(&s, &line_ranges(&s)), vec!["a", "b", "", "c\rd"]);
    let e = chars_of("");
    assert!(line_ranges(&e).is_empty());
    let n = chars_of("\n");
    assert_eq!(pieces(&n, &line_ranges(&n)), vec![""]);
    let t = chars_of("x\n");
    assert_eq!(pieces(&t, &line_ranges(&t)), vec!["x"]);
}

#[test]
fn words_follow_split_whitespace() {
    let s = chars_of("  x \t yz\u{2003}w ");
    assert_eq!(pieces(&s, &word_ranges(&s, 0, s.len())), vec!["x", "yz", "w"]);
    assert_eq!(pieces(&s, &word_ranges(&s, 3, s.len())), vec!["yz", "w"]);
    let b = chars_of("   ");
    assert!(word_ranges(&b, 0, b.len()).is_empty());
}

#[test]
fn parse_decimal_like_std() {
    let p = |t: &str| {
        let s = chars_of(t);
        parse_range(&s, 0, s.len(), 10, u64::MAX)
    };
    assert_eq!(p("42"), Some(42));
    assert_eq!(p("+42"), Some(42));
    assert_eq!(p("007"), Some(7));
    assert_eq!(p(""), None);
    assert_eq!(p("+"), None);
    assert_eq!(p("-1"), None);
    assert_eq!(p(" 1"), None);
    assert_eq!(p("12a"), None);
    assert_eq!(p("18446744073709551615"), Some(u64::MAX));
    assert_eq!(p("18446744073709551616"), None);
    for t in ["0", "+9", "123456", "4294967296", "x", "++1"] {
        assert_eq!(p(t), t.parse::<u64>().ok());
    }
}

#[test]
fn parse_bounded_to_u32() {
    let s = chars_of("4294967296");
    assert_eq!(parse_range(&s, 0, s.len(), 10, u32::MAX as u64), None);
    let t = chars_of("4294967295");
    assert_eq!(parse_range(&t, 0, t.len(), 10, u32::MAX as u64), Some(4294967295));
}

#[test]
fn parse_hexadecimal() {
    let p = |t: &str| {
        let s = chars_of(t);
        parse_range(&s, 0, s.len(), 16, u32::MAX as u64)
    };
    assert_eq!(p("fF"), Some(255));
    assert_eq!(p("1003"), Some(0x1003));
    assert_eq!(p("ffffffff"), Some(0xffff_ffff));
    assert_eq!(p("100000000"), None);
    assert_eq!(p("g"), None);
    for t in ["0", "abc", "+1f", "zz", "", "DEADBEEF"] {
        assert_eq!(p(t), u32::from_str_radix(t, 16).ok().map(|v| v as u64));
    }
}

#[test]
fn decimal_rendering() {
    let mut r = String::from("n=");
    push_decimal(&mut r, 0);
    assert_eq!(r, "n=0");
    let mut q = String::new();
    push_decimal(&mut q, 1234567890);
    assert_eq!(q, "1234567890");
    let mut m = String::new();
    push_decimal(&mut m, u64::MAX);
    assert_eq!(m, u64::MAX.to_string());
}

#[test]
fn remove_all_like_replace() {
    let s = chars_of("key_mgmt=key_mgmt=WPA");
    let p = chars_of("key_mgmt=");
    assert_eq!(remove_all_range(&s, 0, s.len(), &p), "WPA");
    let t = chars_of("aaa");
    let q = chars_of("aa");
    assert_eq!(remove_all_range(&t, 0, t.len(), &q), "aaa".replace("aa", ""));
}

#[test]
fn join_words_with_spaces() {
    let s = chars_of("signal: -52   dBm");
    let ws = word_ranges(&s, 0, s.len());
    assert_eq!(join_ranges(&s, &ws, 1), "-52 dBm");
    assert_eq!(join_ranges(&s, &ws, 3), "");
}

#[test]
fn hex_marks_and_quotes() {
    let s = chars_of("0x0x1003");
    let a = strip_hex_marks_range(&s, 0, s.len());
    assert_eq!(string_of_range(&s, a, s.len()), "1003");
    let q = chars_of("\"\"Debian\"");
    let (x, y) = trim_char_range(&q, 0, q.len(), '"');
    assert_eq!(string_of_range(&q, x, y), "Debian");
}

#[test]
fn whitespace_matches_char_is_whitespace() {
    for n in 0u32..=0x10ffff {
        if let Some(c) = char::from_u32(n) {
            assert_eq!(is_whitespace(c), c.is_whitespace(), "U+{:04X}", n);
        }
    }
}

#[test]
fn pieces_match_std() {
    let samples = [
        "", "\n", "a", "a\nb", " a \r\n\tb\n\n", "x\r", "\r\n\r\n", "  lead", "trail  \n",
        "\u{a0}nbsp\u{a0}", "mixed \u{2028} sep\u{3000}",
    ];
    for t in samples {
        let s = chars_of(t);
        let got_lines = pieces(&s, &line_ranges(&s));
        let want_lines: Vec<String> = t.lines().map(|l| l.to_string()).collect();
        assert_eq!(got_lines, want_lines, "lines of {:?}", t);
        let got_words = pieces(&s, &word_ranges(&s, 0, s.len()));
        let want_words: Vec<String> = t.split_whitespace().map(|w| w.to_string()).collect();
        assert_eq!(got_words, want_words, "words of {:?}", t);
        assert_eq!(trimmed(t), t.trim(), "trim of {:?}", t);
    }
}
