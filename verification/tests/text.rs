use multissh::text::{
    is_white_space, pad_left, parse_port, render_decimal, split, text_before, trim,
};

#[test]
fn split_keeps_empty_pieces() {
    assert_eq!(split("", '@'), vec![String::new()]);
    assert_eq!(split("a", '@'), vec!["a".to_string()]);
    assert_eq!(split("@", '@'), vec![String::new(), String::new()]);
    assert_eq!(split("a@@b@", '@'), vec!["a", "", "b", ""]);
}

#[test]
fn split_agrees_with_std() {
    for text in ["", "a:b", ":a:", "::", "h\u{e9}llo:w\u{f6}rld", "no separator"] {
        let expected: Vec<String> = text.split(':').map(|piece| piece.to_string()).collect();
        assert_eq!(split(text, ':'), expected);
    }
}

#[test]
fn white_space_agrees_with_std() {
    for code in 0..=0x10FFFFu32 {
        if let Some(c) = char::from_u32(code) {
            assert_eq!(is_white_space(c), c.is_whitespace(), "U+{:04X}", code);
        }
    }
}

#[test]
fn trim_agrees_with_std() {
    for text in [
        "",
        " ",
        "\n\t ",
        "abc",
        "  abc",
        "abc\r\n",
        " a b c ",
        "\u{3000}x\u{a0}y\u{2003}",
        "\u{85}\u{1680}",
        " \u{e9} ",
    ] {
        assert_eq!(trim(text), text.trim());
    }
}

#[test]
fn trim_drops_the_white_space_around() {
    assert_eq!(trim("  hello world \n"), "hello world");
}

#[test]
fn parse_port_agrees_with_std() {
    for text in [
        "", "+", "-", "+22", "-1", "-0", "0", "00022", "22", "65535", "65536", "+65535",
        "99999999999999999999", "22a", " 22", "22 ", "2 2", "++2", "2+", "\u{ff12}\u{ff12}",
        "0000000000000000000000065535", "6553x",
    ] {
        assert_eq!(parse_port(text), text.parse::<u16>().ok(), "{:?}", text);
    }
}

#[test]
fn parse_port_reads_numbers() {
    assert_eq!(parse_port("22"), Some(22));
    assert_eq!(parse_port("2222"), Some(2222));
    assert_eq!(parse_port("65536"), None);
    assert_eq!(parse_port("port"), None);
}

#[test]
fn render_decimal_agrees_with_std() {
    for n in [0u64, 1, 9, 10, 11, 99, 100, 101, 12345, 1_000_000, u64::MAX - 1, u64::MAX] {
        assert_eq!(render_decimal(n), n.to_string());
    }
}

#[test]
fn render_decimal_reads_back_as_a_port() {
    for n in [0u16, 7, 22, 443, 65535] {
        assert_eq!(parse_port(&render_decimal(n as u64)), Some(n));
    }
}

#[test]
fn pad_left_agrees_with_std() {
    for text in ["", "a", "example.com", "exactly15chars!", "longer than the column", "h\u{e9}"] {
        assert_eq!(pad_left(text, 15), format!("{:>15}", text));
    }
    assert_eq!(pad_left("ab", 0), "ab");
    assert_eq!(pad_left("ab", 5), "   ab");
}

#[test]
fn text_before_agrees_with_std() {
    let texts = [
        "", "a", "b", "ab", "abc", "abd", "B", "alpha", "beta", "h\u{e9}", "hz", "\u{10348}",
        "\u{ffff}", "host-1", "host-10", "host-2",
    ];
    for a in texts {
        for b in texts {
            assert_eq!(text_before(a, b), a < b, "{:?} {:?}", a, b);
        }
    }
}
