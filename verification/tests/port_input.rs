use std::num::IntErrorKind;

use worker_pool::port::{
    classify, getvalidport, parse_port, PortError, PortNumber, Reply, RESERVED_MAX,
};
use worker_pool::text::{is_whitespace, to_chars, to_decimal, trim_bounds};

fn lines(text: &[&str]) -> Vec<String> {
    text.iter().map(|line| line.to_string()).collect()
}

/// What the standard library makes of the same line.
fn std_parse(line: &str) -> Result<u16, PortError> {
    match line.trim().parse::<u16>() {
        Ok(port) => Ok(port),
        Err(error) => match error.kind() {
            IntErrorKind::Empty => Err(PortError::Empty),
            IntErrorKind::InvalidDigit => Err(PortError::InvalidDigit),
            IntErrorKind::PosOverflow => Err(PortError::TooLarge),
            other => panic!("unexpected kind {:?}", other),
        },
    }
}

#[test]
fn two_bad_lines_then_a_port() {
    let choice = getvalidport(&lines(&["abc", "80", "8080"])).unwrap();
    assert_eq!(choice.reprompts, 2);
    assert_eq!(choice.port, "8080");
}

#[test]
fn reserved_port_then_a_port() {
    let choice = getvalidport(&lines(&["80", "9000"])).unwrap();
    assert_eq!(choice.reprompts, 1);
    assert_eq!(choice.port, "9000");
}

#[test]
fn first_accepted_line_wins() {
    let choice = getvalidport(&lines(&["7878", "9000"])).unwrap();
    assert_eq!(choice.reprompts, 0);
    assert_eq!(choice.port, "7878");
}

#[test]
fn lines_as_read_from_a_console() {
    let choice = getvalidport(&lines(&["abc\n", "\n", "80\r\n", " 8080 \n", "9000\n"])).unwrap();
    assert_eq!(choice.reprompts, 3);
    assert_eq!(choice.port, "8080");
}

#[test]
fn no_accepted_line_gives_no_choice() {
    assert!(getvalidport(&lines(&[])).is_none());
    assert!(getvalidport(&lines(&["", "x", "0", "1023", "65536", "-1"])).is_none());
}

#[test]
fn reserved_range_ends_at_1023() {
    assert_eq!(RESERVED_MAX, 1023);
    assert!(PortNumber { port: 0 }.is_reserved());
    assert!(PortNumber { port: 80 }.is_reserved());
    assert!(PortNumber { port: 1023 }.is_reserved());
    assert!(!PortNumber { port: 1024 }.is_reserved());
    assert!(!PortNumber { port: 7878 }.is_reserved());
    assert!(!PortNumber { port: 65535 }.is_reserved());
}

#[test]
fn reserved_for_every_port() {
    for port in 0..=u16::MAX {
        assert_eq!(PortNumber { port }.is_reserved(), port <= 1023);
    }
}

#[test]
fn classify_tells_the_three_replies_apart() {
    assert_eq!(classify("8080"), Reply::Accepted(PortNumber { port: 8080 }));
    assert_eq!(classify("1024"), Reply::Accepted(PortNumber { port: 1024 }));
    assert_eq!(classify("65535"), Reply::Accepted(PortNumber { port: 65535 }));
    assert_eq!(classify("1023"), Reply::Reserved(PortNumber { port: 1023 }));
    assert_eq!(classify("80"), Reply::Reserved(PortNumber { port: 80 }));
    assert_eq!(classify("0"), Reply::Reserved(PortNumber { port: 0 }));
    assert_eq!(classify("abc"), Reply::Invalid(PortError::InvalidDigit));
    assert_eq!(classify(""), Reply::Invalid(PortError::Empty));
    assert_eq!(classify("65536"), Reply::Invalid(PortError::TooLarge));
}

#[test]
fn each_error_has_an_input() {
    assert_eq!(parse_port(""), Err(PortError::Empty));
    assert_eq!(parse_port("   \t\n"), Err(PortError::Empty));
    assert_eq!(parse_port("12a"), Err(PortError::InvalidDigit));
    assert_eq!(parse_port("+"), Err(PortError::InvalidDigit));
    assert_eq!(parse_port("-"), Err(PortError::InvalidDigit));
    assert_eq!(parse_port("-80"), Err(PortError::InvalidDigit));
    assert_eq!(parse_port("8 0"), Err(PortError::InvalidDigit));
    assert_eq!(parse_port("8_080"), Err(PortError::InvalidDigit));
    assert_eq!(parse_port("65536"), Err(PortError::TooLarge));
    assert_eq!(parse_port("99999999999999999999999"), Err(PortError::TooLarge));
}

#[test]
fn the_leading_digits_decide_the_error() {
    assert_eq!(parse_port("99999x"), Err(PortError::TooLarge));
    assert_eq!(parse_port("65535x"), Err(PortError::InvalidDigit));
    assert_eq!(parse_port("655350"), Err(PortError::TooLarge));
    assert_eq!(parse_port("9x99999"), Err(PortError::InvalidDigit));
    assert_eq!(parse_port("x99999"), Err(PortError::InvalidDigit));
}

#[test]
fn parse_accepts_sign_zeros_and_white_space() {
    assert_eq!(parse_port("8080"), Ok(8080));
    assert_eq!(parse_port("+8080"), Ok(8080));
    assert_eq!(parse_port("0008080"), Ok(8080));
    assert_eq!(parse_port("+000000065535"), Ok(65535));
    assert_eq!(parse_port("  8080\r\n"), Ok(8080));
    assert_eq!(parse_port("\u{3000}8080\u{a0}"), Ok(8080));
    assert_eq!(parse_port("0"), Ok(0));
    assert_eq!(parse_port("++1"), Err(PortError::InvalidDigit));
    assert_eq!(parse_port("+ 1"), Err(PortError::InvalidDigit));
    assert_eq!(parse_port("\u{661}\u{662}"), Err(PortError::InvalidDigit));
}

#[test]
fn parse_agrees_with_the_standard_library() {
    let samples = [
        "", " ", "0", "1", "80", "1023", "1024", "7878", "8080", "65535", "65536", "65540",
        "70000", "99999", "100000", "655350", "0065535", "00000000000000000001", "+1", "+0",
        "+", "-", "-0", "-1", "+-1", "++1", "1+", "1-", "12a", "a12", "1 2", " 12 ", "\t12\n",
        "12\r\n", "\u{b}12\u{c}", "\u{85}12", "12\u{2028}", "\u{feff}12", "\u{200b}12", "１２",
        "1e3", "0x10", "1_000", "1.0", "99999x", "65535x", "x65536", "6553６", "abc", "é",
        "\u{1680}9000\u{205f}", "4294967296", "18446744073709551616",
    ];
    for line in samples {
        assert_eq!(parse_port(line), std_parse(line), "line {:?}", line);
    }
}

#[test]
fn parse_reads_every_port_back() {
    for port in 0..=u16::MAX {
        let text = PortNumber { port }.to_text();
        assert_eq!(text, port.to_string());
        assert_eq!(parse_port(&text), Ok(port));
    }
}

#[test]
fn parse_agrees_with_the_standard_library_on_longer_numbers() {
    for n in (0u32..200_000).step_by(7) {
        let text = n.to_string();
        assert_eq!(parse_port(&text), std_parse(&text), "line {:?}", text);
        let padded = format!(" +0{}\n", n);
        assert_eq!(parse_port(&padded), std_parse(&padded), "line {:?}", padded);
    }
}

#[test]
fn white_space_is_what_the_standard_library_says() {
    for code in 0..=0x10FFFFu32 {
        if let Some(c) = char::from_u32(code) {
            assert_eq!(is_whitespace(c), c.is_whitespace(), "U+{:04X}", code);
        }
    }
}

#[test]
fn to_chars_keeps_every_character() {
    assert_eq!(to_chars(""), Vec::<char>::new());
    assert_eq!(to_chars("80"), vec!['8', '0']);
    assert_eq!(to_chars("é１\u{10FFFF}"), vec!['é', '１', '\u{10FFFF}']);
}

#[test]
fn trim_bounds_agree_with_the_standard_library() {
    let samples = [
        "", " ", "   ", "a", " a", "a ", " a ", "\t a b \n", "\u{3000}x\u{2000}\u{2001}",
        "no space", "  two  words  ", "\r\n", "\u{feff} x",
    ];
    for text in samples {
        let chars: Vec<char> = text.chars().collect();
        let (lo, hi) = trim_bounds(&chars);
        assert!(lo <= hi && hi <= chars.len());
        let kept: String = chars[lo..hi].iter().collect();
        assert_eq!(kept, text.trim(), "text {:?}", text);
    }
    let chars: Vec<char> = " 80 ".chars().collect();
    assert_eq!(trim_bounds(&chars), (1, 3));
    let blank: Vec<char> = "   ".chars().collect();
    assert_eq!(trim_bounds(&blank), (3, 3));
}

#[test]
fn to_decimal_is_what_the_standard_library_writes() {
    for n in 0..=u16::MAX {
        assert_eq!(to_decimal(n), n.to_string());
    }
}

#[test]
fn to_text_has_no_leading_zeros() {
    assert_eq!(PortNumber { port: 0 }.to_text(), "0");
    assert_eq!(PortNumber { port: 7 }.to_text(), "7");
    assert_eq!(PortNumber { port: 10 }.to_text(), "10");
    assert_eq!(PortNumber { port: 1023 }.to_text(), "1023");
    assert_eq!(PortNumber { port: 9000 }.to_text(), "9000");
    assert_eq!(PortNumber { port: 65535 }.to_text(), "65535");
}
