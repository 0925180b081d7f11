use mcshader_lsp::text::{
    ascii_bytes, bytes_eq, count_digits, count_spaces, find_byte, holds_at, lines, parse_u32,
    push_bytes, push_decimal, rfind_byte, split, starts_with, to_unix, to_vec, trim,
};

fn decimal(n: u128) -> Vec<u8> {
    let mut out = Vec::new();
    push_decimal(&mut out, n);
    out
}

#[test]
fn bytes_are_compared_and_copied() {
    assert!(bytes_eq(b"abc", b"abc"));
    assert!(!bytes_eq(b"abc", b"abd"));
    assert!(!bytes_eq(b"abc", b"ab"));
    assert!(bytes_eq(b"", b""));
    assert_eq!(to_vec(b"xyz"), b"xyz".to_vec());
    assert_eq!(ascii_bytes("fsh"), b"fsh");
}

#[test]
fn bytes_are_found() {
    assert_eq!(rfind_byte(b"a/b/c", b'/'), Some(3));
    assert_eq!(rfind_byte(b"abc", b'/'), None);
    assert_eq!(rfind_byte(b"", b'/'), None);
    assert_eq!(find_byte(b"a\nb\nc", 0, b'\n'), 1);
    assert_eq!(find_byte(b"a\nb\nc", 2, b'\n'), 3);
    assert_eq!(find_byte(b"a\nb\nc", 4, b'\n'), 5);
}

#[test]
fn patterns_are_matched_in_place() {
    assert!(holds_at(b"#include \"a\"", 0, b"#include"));
    assert!(holds_at(b"  #include", 2, b"#include"));
    assert!(!holds_at(b"  #include", 1, b"#include"));
    assert!(!holds_at(b"#incl", 0, b"#include"));
    assert!(!holds_at(b"abc", 7, b"a"));
    assert!(holds_at(b"abc", 3, b""));
    assert!(starts_with(b"/w/shaders/a.fsh", b"/w"));
    assert!(!starts_with(b"/w", b"/w/shaders"));
}

#[test]
fn digits_and_spaces_are_counted() {
    assert_eq!(count_digits(b"123abc", 0), 3);
    assert_eq!(count_digits(b"123abc", 3), 0);
    assert_eq!(count_digits(b"a42", 1), 2);
    assert_eq!(count_digits(b"a42", 3), 0);
    assert_eq!(count_spaces(b" \t\x0b\x0c\r\nx ", 0), 6);
    assert_eq!(count_spaces(b"x ", 0), 0);
}

#[test]
fn text_is_trimmed() {
    assert_eq!(trim(b"  bad thing \r"), b"bad thing".to_vec());
    assert_eq!(trim(b"bad thing"), b"bad thing".to_vec());
    assert_eq!(trim(b" \t "), Vec::<u8>::new());
    assert_eq!(trim(b""), Vec::<u8>::new());
    assert_eq!(trim(b" x"), b"x".to_vec());
    assert_eq!(trim(b"a  b"), b"a  b".to_vec());
}

#[test]
fn numbers_are_parsed() {
    assert_eq!(parse_u32(b"0"), Some(0));
    assert_eq!(parse_u32(b"7"), Some(7));
    assert_eq!(parse_u32(b"007"), Some(7));
    assert_eq!(parse_u32(b"4294967295"), Some(4294967295));
    assert_eq!(parse_u32(b"4294967296"), None);
    assert_eq!(parse_u32(b"99999999999999999999999999"), None);
    assert_eq!(parse_u32(b""), None);
    assert_eq!(parse_u32(b"12a"), None);
    assert_eq!(parse_u32(b"-1"), None);
}

#[test]
fn numbers_are_written() {
    assert_eq!(decimal(0), b"0".to_vec());
    assert_eq!(decimal(7), b"7".to_vec());
    assert_eq!(decimal(10), b"10".to_vec());
    assert_eq!(decimal(1234567890), b"1234567890".to_vec());
    assert_eq!(
        decimal(u128::MAX),
        b"340282366920938463463374607431768211455".to_vec()
    );
    let mut out = b"#line ".to_vec();
    push_decimal(&mut out, 42);
    push_bytes(&mut out, b" 1");
    assert_eq!(out, b"#line 42 1".to_vec());
}

#[test]
fn text_is_split() {
    assert_eq!(split(b"a\nb", b'\n'), vec![b"a".to_vec(), b"b".to_vec()]);
    assert_eq!(
        split(b"a\nb\n", b'\n'),
        vec![b"a".to_vec(), b"b".to_vec(), b"".to_vec()]
    );
    assert_eq!(split(b"", b'\n'), vec![b"".to_vec()]);
    assert_eq!(split(b"\n", b'\n'), vec![b"".to_vec(), b"".to_vec()]);
    assert_eq!(split(b"abc", b'\n'), vec![b"abc".to_vec()]);
}

#[test]
fn lines_leave_out_the_piece_behind_the_last_line_feed() {
    assert_eq!(lines(b"a\nb\n"), vec![b"a".to_vec(), b"b".to_vec()]);
    assert_eq!(lines(b"a\nb"), vec![b"a".to_vec(), b"b".to_vec()]);
    assert_eq!(lines(b""), Vec::<Vec<u8>>::new());
    assert_eq!(lines(b"\n"), vec![b"".to_vec()]);
    assert_eq!(lines(b"a\n\n"), vec![b"a".to_vec(), b"".to_vec()]);
}

#[test]
fn line_ends_become_those_of_unix() {
    assert_eq!(to_unix(b"a\r\nb\r\n"), b"a\nb\n".to_vec());
    assert_eq!(to_unix(b"a\nb"), b"a\nb".to_vec());
    assert_eq!(to_unix(b"a\rb"), b"a\rb".to_vec());
    assert_eq!(to_unix(b"a\r\r\nb"), b"a\r\nb".to_vec());
    assert_eq!(to_unix(b"\r"), b"\r".to_vec());
    assert_eq!(to_unix(b""), Vec::<u8>::new());
}
