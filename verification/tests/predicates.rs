use tiny_regex_rs::chars::{
    match_alphanum, match_class, match_digit, match_dot, match_escape, match_range,
    match_whitespace,
};
use tiny_regex_rs::{Regex, RegexObj};

#[test]
fn digits() {
    assert!(match_digit(b'0'));
    assert!(match_digit(b'9'));
    assert!(!match_digit(b'/'));
    assert!(!match_digit(b':'));
    assert!(!match_digit(b'a'));
}

#[test]
fn alphanumerics() {
    for c in [b'a', b'z', b'A', b'Z', b'0', b'9', b'_'] {
        assert!(match_alphanum(c));
    }
    for c in [b'`', b'{', b'@', b'[', b'/', b':', b' ', b'-'] {
        assert!(!match_alphanum(c));
    }
}

#[test]
fn whitespace() {
    for c in [b' ', b'\t', b'\n', b'\r', 0x0b, 0x0c] {
        assert!(match_whitespace(c));
    }
    for c in [b'a', 0u8, 0x08, 0x0e, 0x1f, b'!'] {
        assert!(!match_whitespace(c));
    }
}

#[test]
fn dot_accepts_everything() {
    for c in 0u8..=255 {
        assert!(match_dot(c));
    }
}

#[test]
fn escapes() {
    assert!(match_escape(b'd', b'5'));
    assert!(!match_escape(b'd', b'x'));
    assert!(match_escape(b'D', b'x'));
    assert!(!match_escape(b'D', b'5'));
    assert!(match_escape(b'w', b'_'));
    assert!(!match_escape(b'w', b'-'));
    assert!(match_escape(b'W', b'-'));
    assert!(!match_escape(b'W', b'q'));
    assert!(match_escape(b's', b'\t'));
    assert!(!match_escape(b's', b'q'));
    assert!(match_escape(b'S', b'q'));
    assert!(!match_escape(b'S', b' '));
    assert!(match_escape(b']', b']'));
    assert!(!match_escape(b']', b'['));
}

#[test]
fn ranges() {
    assert!(match_range(b'a', b"a-z"));
    assert!(match_range(b'm', b"a-z"));
    assert!(match_range(b'z', b"a-zXYZ"));
    assert!(!match_range(b'A', b"a-z"));
    assert!(!match_range(b'{', b"a-z"));
    assert!(!match_range(b'a', b"a-"));
    assert!(!match_range(b'a', b"az-"));
    assert!(!match_range(b'-', b"+-/"));
    assert!(match_range(b',', b"+-/"));
    assert!(!match_range(b'.', b"--/"));
    assert!(!match_range(b'a', b""));
}

#[test]
fn class_bodies() {
    assert!(match_class(b"abc", b'b'));
    assert!(!match_class(b"abc", b'd'));
    assert!(!match_class(b"", b'a'));
    assert!(match_class(b"a-z", b'q'));
    assert!(!match_class(b"a-z", b'-'));
    assert!(match_class(b"a-z0-9", b'7'));
    assert!(match_class(b"\\d", b'7'));
    assert!(!match_class(b"\\d", b'd'));
    assert!(match_class(b"\\d\\s", b' '));
    assert!(match_class(b"x\\]", b']'));
    assert!(!match_class(b"x\\]", b'\\'));
}

#[test]
fn class_dash_policy() {
    assert!(match_class(b"-a", b'-'));
    assert!(match_class(b"a-", b'-'));
    assert!(match_class(b"a-b-", b'-'));
    assert!(!match_class(b"a-b", b'-'));
    assert!(!match_class(b"a-bc", b'-'));
    assert!(match_class(b"a-bc", b'c'));
    assert!(match_class(b"\\-", b'-'));
}

#[test]
fn class_ending_in_a_backslash_rejects() {
    assert!(!match_class(b"\\", b'\\'));
    assert!(!match_class(b"a\\", b'x'));
    assert!(match_class(b"a\\", b'a'));
}

#[test]
fn instructions_consume_one_byte() {
    let regex = Regex::compile(b"[a-c][^x]").unwrap();
    assert!(regex.match_charclass(0, 3, b'b'));
    assert!(!regex.match_charclass(0, 3, b'x'));
    assert!(regex.match_charclass(3, 1, b'x'));
    assert!(regex.match_one(RegexObj::CharClass { begin: 0, len: 3 }, b'c'));
    assert!(!regex.match_one(RegexObj::InvCharClass { begin: 0, len: 3 }, b'c'));
    assert!(regex.match_one(RegexObj::InvCharClass { begin: 3, len: 1 }, b'c'));
    assert!(regex.match_one(RegexObj::Dot, b'\n'));
    assert!(regex.match_one(RegexObj::Char(b'q'), b'q'));
    assert!(!regex.match_one(RegexObj::Char(b'q'), b'r'));
    assert!(regex.match_one(RegexObj::Digit, b'1'));
    assert!(regex.match_one(RegexObj::NotDigit, b'a'));
    assert!(regex.match_one(RegexObj::Alpha, b'a'));
    assert!(regex.match_one(RegexObj::NotAlpha, b' '));
    assert!(regex.match_one(RegexObj::Whitespace, b' '));
    assert!(regex.match_one(RegexObj::NotWhitespace, b'a'));
}

#[test]
fn instructions_that_consume_nothing_accept_nothing() {
    let regex = Regex::zeroed();
    for obj in [
        RegexObj::Unused,
        RegexObj::Begin,
        RegexObj::End,
        RegexObj::Jmp(0),
        RegexObj::Split(0, 1),
    ] {
        assert!(!regex.match_one(obj, b'a'));
    }
}
