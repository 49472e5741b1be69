use tiny_regex_rs::{Regex, MAX_CHAR_CLASS_LEN, MAX_NESTING, MAX_REGEXP_OBJECTS};

fn compiles(pattern: &[u8]) -> bool {
    Regex::compile(pattern).is_some()
}

#[test]
fn thirty_one_literals_do_not_fit() {
    assert!(compiles(b"abcdefghijklmnopqrstuvwxyz0123"));
    assert!(!compiles(b"abcdefghijklmnopqrstuvwxyz01234"));
    assert_eq!(None, tiny_regex_rs::matches(b"abcdefghijklmnopqrstuvwxyz01234", b"abc"));
}

#[test]
fn unterminated_class_fails() {
    assert!(!compiles(b"["));
    assert!(!compiles(b"[^"));
    assert!(!compiles(b"[abc"));
    assert!(!compiles(b"[a\\]"));
    assert!(!compiles(b"x[a\\"));
    assert!(compiles(b"[abc]"));
    assert!(compiles(b"[a\\]]"));
}

#[test]
fn dangling_escape_fails() {
    assert!(!compiles(b"\\"));
    assert!(!compiles(b"ab\\"));
    assert!(compiles(b"\\\\"));
}

#[test]
fn failed_compile_matches_nothing() {
    assert_eq!(None, tiny_regex_rs::matches(b"[", b"["));
    assert_eq!(None, tiny_regex_rs::matches(b"\\", b"\\"));
    assert_eq!(None, tiny_regex_rs::matches(b")", b")"));
    assert_eq!(None, tiny_regex_rs::matches(b"[", b""));
}

#[test]
fn class_buffer_capacity() {
    let mut fits = vec![b'['];
    fits.extend(std::iter::repeat(b'a').take(MAX_CHAR_CLASS_LEN));
    fits.push(b']');
    assert!(compiles(&fits));

    let mut too_long = vec![b'['];
    too_long.extend(std::iter::repeat(b'a').take(MAX_CHAR_CLASS_LEN + 1));
    too_long.push(b']');
    assert!(!compiles(&too_long));

    assert!(compiles(b"[aaaaaaaaaaaaaaaaaaaa][bbbbbbbbbbbbbbbbbbbb]"));
    assert!(!compiles(b"[aaaaaaaaaaaaaaaaaaaa][bbbbbbbbbbbbbbbbbbbbb]"));
}

#[test]
fn group_nesting_capacity() {
    let fits = vec![b'('; MAX_NESTING];
    assert!(compiles(&fits));
    let too_deep = vec![b'('; MAX_NESTING + 1];
    assert!(!compiles(&too_deep));
}

#[test]
fn closing_an_unopened_group_fails() {
    assert!(!compiles(b")"));
    assert!(!compiles(b"(a))"));
    assert!(compiles(b"(a)"));
    assert!(compiles(b"(a"));
}

#[test]
fn quantifiers_need_room() {
    let literals = vec![b'a'; MAX_REGEXP_OBJECTS];

    let mut star = literals[..28].to_vec();
    star.push(b'*');
    assert!(compiles(&star));
    let mut star = literals[..29].to_vec();
    star.push(b'*');
    assert!(!compiles(&star));

    let mut optional = literals[..29].to_vec();
    optional.push(b'?');
    assert!(compiles(&optional));
    let mut optional = literals[..30].to_vec();
    optional.push(b'?');
    assert!(!compiles(&optional));

    let mut plus = literals[..29].to_vec();
    plus.push(b'+');
    assert!(compiles(&plus));
    let mut plus = literals[..30].to_vec();
    plus.push(b'+');
    assert!(!compiles(&plus));
}

#[test]
fn plus_in_the_last_slot_matches() {
    let mut pattern = vec![b'a'; 29];
    pattern.push(b'+');
    let text = vec![b'a'; 40];
    assert_eq!(Some(&text[..]), tiny_regex_rs::matches(&pattern, &text));
    let short = vec![b'a'; 28];
    assert_eq!(None, tiny_regex_rs::matches(&pattern, &short));
}
