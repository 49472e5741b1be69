use tiny_regex_rs::{matches_nfa, Regex};

fn span(pattern: &[u8], text: &[u8]) -> Option<(usize, usize)> {
    let regex = Regex::compile(pattern)?;
    matches_nfa(&regex, text)
}

#[test]
fn lowercase_class_skips_the_capital() {
    assert_eq!(Some(&b"ello"[..]), tiny_regex_rs::matches(b"[a-z]+", b"Hello"));
    assert_eq!(Some((1, 5)), span(b"[a-z]+", b"Hello"));
}

#[test]
fn digits_inside_a_word() {
    assert_eq!(Some(&b"42"[..]), tiny_regex_rs::matches(b"\\d+", b"x42y"));
    assert_eq!(Some((1, 3)), span(b"\\d+", b"x42y"));
}

#[test]
fn negated_class_between_digits() {
    assert_eq!(Some(&b"abc"[..]), tiny_regex_rs::matches(b"[^0-9]+", b"42abc42"));
    assert_eq!(Some((2, 5)), span(b"[^0-9]+", b"42abc42"));
}

#[test]
fn group_repeats_as_a_whole() {
    assert_eq!(Some((1, 5)), span(b"(bc)+", b"abcbca"));
    assert_eq!(Some((0, 2)), span(b"(bc)+", b"bcc"));
    assert_eq!(None, span(b"(bc)+", b"ccc"));
    assert_eq!(Some((4, 16)), span(b"(bc(de)*)+", b"aadebcdedebcdebcaa"));
}

#[test]
fn empty_pattern_matches_empty_at_offset_zero() {
    assert_eq!(Some((0, 0)), span(b"", b""));
    assert_eq!(Some((0, 0)), span(b"", b"a"));
    assert_eq!(Some((0, 0)), span(b"", b"some longer text"));
    assert_eq!(Some(&b""[..]), tiny_regex_rs::matches(b"", b"abc"));
}

#[test]
fn blank_program_matches_empty_at_offset_zero() {
    let regex = Regex::zeroed();
    assert_eq!(Some((0, 0)), matches_nfa(&regex, b""));
    assert_eq!(Some((0, 0)), matches_nfa(&regex, b"xyz"));
    assert_eq!(Some(&b""[..]), regex.matches(b"xyz"));
}

#[test]
fn optional_atom_on_empty_text() {
    assert_eq!(Some((0, 0)), span(b"a?", b""));
}

#[test]
fn question_mark_is_lazy() {
    assert_eq!(Some((0, 0)), span(b"a?", b"a"));
    assert_eq!(Some((0, 1)), span(b"ab?", b"ab"));
    assert_eq!(Some((0, 2)), span(b"ab?c", b"ac"));
    assert_eq!(Some((0, 3)), span(b"ab?c", b"abc"));
}

#[test]
fn star_and_plus_are_greedy() {
    assert_eq!(Some((0, 3)), span(b"a*", b"aaab"));
    assert_eq!(Some((0, 0)), span(b"a*", b"baaa"));
    assert_eq!(Some((1, 4)), span(b"a+", b"baaac"));
    assert_eq!(None, span(b"a+", b"bbb"));
    assert_eq!(Some((0, 5)), span(b"a.*b", b"aXbXb"));
}

#[test]
fn preferred_thread_wins_over_longer_match() {
    assert_eq!(Some((0, 2)), span(b"a*(ab)*", b"aab"));
}

#[test]
fn simple_literal_offsets() {
    assert_eq!(Some((0, 3)), span(b"abc", b"abc"));
    assert_eq!(Some((2, 5)), span(b"abc", b"ababcab"));
    assert_eq!(None, span(b"abc", b"abab"));
}

#[test]
fn star_before_end_anchor() {
    assert_eq!(Some((1, 3)), span(b"a*$", b"Xaa"));
}

#[test]
fn leftmost_match_is_reported() {
    assert_eq!(Some((1, 2)), span(b"b", b"abcb"));
    assert_eq!(Some((0, 1)), span(b"[ab]", b"ba"));
}

#[test]
fn match_is_a_slice_of_the_text() {
    let text = b"aadebcdedebcdebcaa";
    let found = tiny_regex_rs::matches(b"(bc(de)*)+", text).unwrap();
    let (s, e) = span(b"(bc(de)*)+", text).unwrap();
    assert!(s <= e && e <= text.len());
    assert_eq!(found, &text[s..e]);
    assert_eq!(found.as_ptr(), text[s..].as_ptr());
}

#[test]
fn caret_anchors_the_start() {
    assert_eq!(Some((0, 3)), span(b"^abc", b"abcx"));
    assert_eq!(None, span(b"^abc", b"xabc"));
    assert_eq!(Some((0, 2)), span(b"^(ab)+", b"abxab"));
    assert_eq!(None, span(b"^b+", b"abbb"));
    assert_eq!(Some((0, 0)), span(b"^", b"abc"));
}

#[test]
fn quantified_caret_is_no_anchor() {
    assert_eq!(Some((1, 2)), span(b"^*a", b"ba"));
}

#[test]
fn dollar_anchors_the_end() {
    assert_eq!(Some((1, 4)), span(b"abc$", b"xabc"));
    assert_eq!(None, span(b"abc$", b"abcx"));
    assert_eq!(Some((3, 3)), span(b"$", b"abc"));
    assert_eq!(Some((0, 0)), span(b"$", b""));
    assert_eq!(Some((0, 3)), span(b"^abc$", b"abc"));
    assert_eq!(None, span(b"^abc$", b"abcd"));
}

#[test]
fn escaped_dollar_is_a_literal() {
    assert_eq!(Some((1, 2)), span(b"\\$", b"a$b"));
}

#[test]
fn dot_takes_any_byte() {
    assert_eq!(Some(&b"\n"[..]), tiny_regex_rs::matches(b".", b"\n"));
    assert_eq!(Some((0, 3)), span(b"a.c", b"a\nc"));
    assert_eq!(None, span(b".", b""));
}

#[test]
fn escapes_select_byte_kinds() {
    assert_eq!(Some((2, 7)), span(b"\\w+", b"  foo_1 bar"));
    assert_eq!(Some((0, 2)), span(b"\\W+", b"  foo_1 bar"));
    assert_eq!(Some((3, 5)), span(b"\\s+", b"foo\t\nbar"));
    assert_eq!(Some((0, 3)), span(b"\\S+", b"foo\t\nbar"));
    assert_eq!(Some((0, 1)), span(b"\\D+", b"x42y"));
    assert_eq!(Some((1, 2)), span(b"\\.", b"a.b"));
    assert_eq!(Some((1, 3)), span(b"\\(\\)", b"a()"));
}

#[test]
fn classes_with_escapes_and_dashes() {
    assert_eq!(Some((1, 4)), span(b"[a-]+", b"x-a-y"));
    assert_eq!(Some((0, 4)), span(b"[a-b-]+", b"a-b-c"));
    assert_eq!(Some((1, 4)), span(b"[\\d.]+", b"v1.2b"));
    assert_eq!(Some((0, 1)), span(b"[\\]]", b"]"));
    assert_eq!(Some((2, 3)), span(b"[^\\w]", b"ab cd"));
    assert_eq!(Some((0, 1)), span(b"[^]", b"q"));
    assert_eq!(None, span(b"[]", b"q"));
}

#[test]
fn two_classes_share_the_buffer() {
    assert_eq!(Some((1, 3)), span(b"[a-c][x-z]", b"qbyb"));
    assert_eq!(Some((0, 4)), span(b"[0-9]+[^0-9]+", b"12ab34"));
}

#[test]
fn nested_quantifiers_terminate() {
    assert_eq!(Some((0, 0)), span(b"a?+", b"aaaaaaaaa"));
    assert!(span(b"a**", b"aaa").is_some());
    assert!(span(b"(a*)+", b"aa").is_some());
    assert!(span(b"(a*)*", b"b").is_some());
}

#[test]
fn full_program_still_matches() {
    let pattern = b"abcdefghijklmnopqrstuvwxyz0123";
    assert_eq!(30, pattern.len());
    assert_eq!(Some((1, 31)), span(pattern, b"_abcdefghijklmnopqrstuvwxyz0123_"));
    assert_eq!(None, span(pattern, b"_abcdefghijklmnopqrstuvwxyz012_"));
}

#[test]
fn repeated_atoms_take_the_whole_run() {
    assert_eq!(Some((0, 6)), span(b"[a-c]*", b"abcabcx"));
    assert_eq!(Some((0, 0)), span(b"[a-c]*", b"xabc"));
    assert_eq!(Some((1, 4)), span(b"[a-c]+", b"xabcx"));
    assert_eq!(Some((2, 4)), span(b"\\d+", b"ab12c"));
    assert_eq!(Some((0, 3)), span(b".*", b"a\nb"));
    assert_eq!(Some((0, 5)), span(b"(x)+", b"xxxxx"));
    assert_eq!(None, span(b".+", b""));
    assert_eq!(Some((0, 0)), span(b".*", b""));
}

#[test]
fn earliest_start_wins_over_later_longer_runs() {
    assert_eq!(Some((1, 2)), span(b"b+", b"abcbbbb"));
    assert_eq!(Some((0, 1)), span(b"[ab]c*", b"abccc"));
}
