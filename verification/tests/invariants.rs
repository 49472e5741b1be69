use tiny_regex_rs::Regex;

#[test]
fn compiled_programs_are_well_formed() {
    let patterns: [&[u8]; 12] = [
        b"",
        b"abc",
        b"a*$",
        b"(bc(de)*)+",
        b"[a-z]+[^0-9]*[\\d\\s]?",
        b"^a?b+c*$",
        b"a**",
        b"(a*)+",
        b"^*a",
        b"((((((((((((((((((((a",
        b"abcdefghijklmnopqrstuvwxyz0123",
        b"aaaaaaaaaaaaaaaaaaaaaaaaaaaaa+",
    ];
    for p in patterns {
        let regex = Regex::compile(p).unwrap();
        assert!(regex.is_well_formed());
    }
    assert!(Regex::zeroed().is_well_formed());
}

#[test]
fn compiling_twice_gives_the_same_matches() {
    let first = Regex::compile(b"(bc(de)*)+").unwrap();
    let second = Regex::compile(b"(bc(de)*)+").unwrap();
    let text = b"aadebcdedebcdebcaa";
    assert_eq!(first.matches(text), second.matches(text));
    assert_eq!(first.matches(text), tiny_regex_rs::matches(b"(bc(de)*)+", text));
}

#[test]
fn program_serves_many_texts() {
    let regex = Regex::compile(b"\\d+").unwrap();
    assert_eq!(Some(&b"42"[..]), regex.matches(b"x42y"));
    assert_eq!(Some(&b"7"[..]), regex.matches(b"7 up"));
    assert_eq!(None, regex.matches(b"none"));
    assert_eq!(Some(&b"42"[..]), regex.matches(b"x42y"));
}
