use led_handheld::text;

#[test]
fn trimming_agrees_with_std() {
    for s in ["", " ", "a", " a b ", "\t\u{a0}x\u{3000}", "\u{200b}x\u{200b}", "\u{85}\u{2028}é "] {
        assert_eq!(text::trim(s), s.trim());
        assert_eq!(text::trim_start(s), s.trim_start());
        let words: Vec<&str> = s.split_whitespace().collect();
        assert_eq!(text::split_whitespace(s), words);
    }
}

#[test]
fn white_space_is_that_of_unicode() {
    let mut code: u32 = 0;
    while code <= 0x10FFFF {
        if let Some(c) = char::from_u32(code) {
            let s = String::from(c);
            assert_eq!(text::trim(&s).is_empty(), c.is_whitespace(), "{:x}", code);
        }
        code += 1;
    }
}

#[test]
fn lines_agree_with_std() {
    for s in ["", "\n", "a", "a\n", "a\nb", "a\r\nb\r\n", "\r", "a\r", "a\r\r\n\n", "\n\nx", "é\nü\r"] {
        let expected: Vec<&str> = s.lines().collect();
        assert_eq!(text::lines(s), expected, "{:?}", s);
    }
}

#[test]
fn numbers_agree_with_std() {
    for s in [
        "", "+", "-", "0", "+0", "-0", "-1", "00255", "255", "256", "+255", "++1", "1 ", " 1", "1a",
        "4294967295", "4294967296", "18446744073709551615", "18446744073709551616",
        "99999999999999999999999", "000000000000000000000000000007", "٣", "1_0",
    ] {
        assert_eq!(text::parse_u8(s), s.parse::<u8>().ok(), "{:?}", s);
        assert_eq!(text::parse_u8_or(s, 7), s.parse::<u8>().unwrap_or(7), "{:?}", s);
        assert_eq!(text::parse_number(s, u32::MAX as u64).map(|n| n as u32), s.parse::<u32>().ok());
        assert_eq!(text::parse_number(s, u64::MAX), s.parse::<u64>().ok(), "{:?}", s);
    }
}

#[test]
fn decimal_text_reads_back() {
    for n in [0u32, 1, 9, 10, 99, 100, 255, 256, 1000, 4294967295] {
        assert_eq!(text::decimal(n), n.to_string());
        assert_eq!(text::parse_number(&text::decimal(n), u32::MAX as u64), Some(n as u64));
    }
}

#[test]
fn searching_agrees_with_std() {
    for s in ["", "abc", "a=b=c", "=", "xx\"k\"", "éa=b", "aaab"] {
        for p in ["", "a", "=", "\"k\"", "aab", "b=c", "zz"] {
            let chars = s.find(p).map(|i| s[..i].chars().count());
            assert_eq!(text::find_text_from(s, p, 0), chars);
            for from in 0..8 {
                let tail: String = s.chars().skip(from).collect();
                let later = if from <= s.chars().count() {
                    tail.find(p).map(|i| from + tail[..i].chars().count())
                } else {
                    None
                };
                assert_eq!(text::find_text_from(s, p, from), later);
            }
            assert_eq!(text::starts_with(s, p), s.starts_with(p));
            assert_eq!(text::ends_with(s, p), s.ends_with(p));
        }
        let (head, rest) = text::split_first(s, '=');
        let mut parts = s.splitn(2, '=');
        assert_eq!(Some(head), parts.next());
        assert_eq!(rest, parts.next());
        assert_eq!(text::trim_start_char(s, 'a'), s.trim_start_matches('a'));
    }
}

#[test]
fn lowering_leaves_other_letters() {
    assert_eq!(text::to_lower("L1_Right é9"), "l1_right é9");
}
