use tiny_regex_rs::{Regex, MAX_CHAR_CLASS_LEN, MAX_REGEXP_OBJECTS};

#[test]
fn test_brackets() {
    assert_eq!(Some(&b"bcbc"[..]), tiny_regex_rs::matches(b"(bc)+", b"abcbca"));
    assert_eq!(Some(&b"bc"[..]), tiny_regex_rs::matches(b"(bc)+", b"bcc"));
    assert_eq!(None, tiny_regex_rs::matches(b"(bc)+", b"ccc"));

    assert_eq!(Some(&b"bcdedebcdebc"[..]), tiny_regex_rs::matches(b"(bc(de)*)+", b"aadebcdedebcdebcaa"));
}

#[test]
fn test_nearly_empty() {
    assert_eq!(Some(&b""[..]), tiny_regex_rs::matches(b"", b""));
    assert_eq!(Some(&b""[..]), tiny_regex_rs::matches(b"a?", b""));
}

#[test]
fn simple() {
    assert_eq!(Some(&b"abc"[..]), tiny_regex_rs::matches(b"abc", b"abc"));
}

#[test]
fn simple_quant() {
    assert_eq!(Some(&b"aa"[..]), tiny_regex_rs::matches(b"a*$", b"Xaa"));
}

#[test]
fn test_size() {
    assert_eq!(std::mem::size_of::<Regex>(), 3 * MAX_REGEXP_OBJECTS + MAX_CHAR_CLASS_LEN);
}
