use std::io::BufRead;
use brudb::text::{
    chars_of, join_with, parse_i32, parse_u32, split_all_at, split_once_at, text_lines, trim_whitespace,
    u64_to_decimal,
};

fn s(x: &str) -> String {
    x.to_string()
}

#[test]
fn parse_u32_as_std_does() {
    assert_eq!(parse_u32("0"), Some(0));
    assert_eq!(parse_u32("007"), Some(7));
    assert_eq!(parse_u32("+5"), Some(5));
    assert_eq!(parse_u32("4294967295"), Some(4294967295));
    assert_eq!(parse_u32("4294967296"), None);
    assert_eq!(parse_u32("99999999999999999999"), None);
    assert_eq!(parse_u32("-5"), None);
    assert_eq!(parse_u32(""), None);
    assert_eq!(parse_u32("+"), None);
    assert_eq!(parse_u32(" 5"), None);
    for x in ["0", "12", "+12", "-1", "4294967296", "1a", "", "+"] {
        assert_eq!(parse_u32(x), x.parse::<u32>().ok());
    }
}

#[test]
fn parse_i32_as_std_does() {
    assert_eq!(parse_i32("-2147483648"), Some(-2147483648));
    assert_eq!(parse_i32("2147483647"), Some(2147483647));
    assert_eq!(parse_i32("2147483648"), None);
    assert_eq!(parse_i32("-2147483649"), None);
    assert_eq!(parse_i32("-"), None);
    assert_eq!(parse_i32("-0"), Some(0));
    for x in ["-5", "+5", "5", "--5", "", "-", "+", "3000000000"] {
        assert_eq!(parse_i32(x), x.parse::<i32>().ok());
    }
}

#[test]
fn trim_as_std_does() {
    for x in ["  a b  ", "\t\n x\r\n", "", "   ", "\u{3000}y\u{a0}", "z"] {
        assert_eq!(trim_whitespace(x), x.trim());
    }
}

#[test]
fn lines_as_bufread_gives_them() {
    assert_eq!(text_lines("a\r\nb\n\nc"), vec![s("a"), s("b"), s(""), s("c")]);
    assert_eq!(text_lines("a\n"), vec![s("a")]);
    assert_eq!(text_lines(""), Vec::<String>::new());
    assert_eq!(text_lines("\n"), vec![s("")]);
    assert_eq!(text_lines("x\r"), vec![s("x\r")]);
}

#[test]
fn split_and_join() {
    assert_eq!(split_all_at("a,,b", ','), vec![s("a"), s(""), s("b")]);
    assert_eq!(split_all_at("", ','), vec![s("")]);
    assert_eq!(split_once_at("k:v:w", ':'), Some((s("k"), s("v:w"))));
    assert_eq!(split_once_at("kv", ':'), None);
    assert_eq!(join_with(&vec![s("a"), s(""), s("b")], ','), "a,,b");
    assert_eq!(join_with(&vec![], ','), "");
}

#[test]
fn decimal_and_chars() {
    assert_eq!(u64_to_decimal(0), "0");
    assert_eq!(u64_to_decimal(1234), "1234");
    assert_eq!(u64_to_decimal(u64::MAX), u64::MAX.to_string());
    assert_eq!(chars_of("aé"), vec!['a', 'é']);
}

#[test]
fn lines_match_bufread_lines() {
    for t in ["a\r\nb\n\nc", "a\n", "", "\n", "x\r", "\r\n\r\n", "a\r\r\nb", "é:ü\n:\n"] {
        let expected: Vec<String> = std::io::Cursor::new(t).lines().map(|l| l.unwrap()).collect();
        assert_eq!(text_lines(t), expected);
    }
}

#[test]
fn splitting_matches_str_split() {
    for t in ["a,,b", "", ",", "a", "x,y,z,"] {
        let expected: Vec<String> = t.split(',').map(|p| p.to_string()).collect();
        assert_eq!(split_all_at(t, ','), expected);
    }
    for t in ["k:v:w", "kv", ":", "a:"] {
        let parts: Vec<&str> = t.splitn(2, ':').collect();
        let expected = if parts.len() == 2 { Some((s(parts[0]), s(parts[1]))) } else { None };
        assert_eq!(split_once_at(t, ':'), expected);
    }
}
