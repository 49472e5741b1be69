//! Byte predicates and the character-class sub-language.

use vstd::prelude::*;
use vstd::slice::slice_subrange;

verus! {

// The bytes that patterns and classes give a meaning to, by their ASCII
// names.
pub const ZERO: u8 = 0x30;
pub const NINE: u8 = 0x39;
pub const UPPER_A: u8 = 0x41;
pub const UPPER_Z: u8 = 0x5a;
pub const LOWER_A: u8 = 0x61;
pub const LOWER_Z: u8 = 0x7a;
pub const UNDERSCORE: u8 = 0x5f;
pub const SPACE: u8 = 0x20;
pub const TAB: u8 = 0x09;
pub const LINE_FEED: u8 = 0x0a;
pub const VERTICAL_TAB: u8 = 0x0b;
pub const FORM_FEED: u8 = 0x0c;
pub const CARRIAGE_RETURN: u8 = 0x0d;
pub const DASH: u8 = 0x2d;
pub const BACKSLASH: u8 = 0x5c;
pub const LOWER_D: u8 = 0x64;
pub const UPPER_D: u8 = 0x44;
pub const LOWER_W: u8 = 0x77;
pub const UPPER_W: u8 = 0x57;
pub const LOWER_S: u8 = 0x73;
pub const UPPER_S: u8 = 0x53;
pub const CARET: u8 = 0x5e;
pub const DOLLAR: u8 = 0x24;
pub const PERIOD: u8 = 0x2e;
pub const OPEN_BRACKET: u8 = 0x5b;
pub const CLOSE_BRACKET: u8 = 0x5d;
pub const OPEN_PAREN: u8 = 0x28;
pub const CLOSE_PAREN: u8 = 0x29;
pub const PLUS: u8 = 0x2b;
pub const STAR: u8 = 0x2a;
pub const QUESTION: u8 = 0x3f;

/// `c` is an ASCII decimal digit.
pub open spec fn digit(c: u8) -> bool {
    ZERO <= c <= NINE
}

/// `c` is an ASCII letter, a digit or an underscore.
pub open spec fn alnum(c: u8) -> bool {
    digit(c) || LOWER_A <= c <= LOWER_Z || UPPER_A <= c <= UPPER_Z || c == UNDERSCORE
}

/// `c` is a space, tab, line feed, carriage return, vertical tab or form feed.
pub open spec fn whitespace(c: u8) -> bool {
    c == SPACE || c == TAB || c == LINE_FEED || c == CARRIAGE_RETURN || c == VERTICAL_TAB || c
        == FORM_FEED
}

/// What the byte after a backslash accepts: one of the six predicate
/// letters, or else the byte itself.
pub open spec fn escape_match(e: u8, c: u8) -> bool {
    if e == LOWER_D {
        digit(c)
    } else if e == UPPER_D {
        !digit(c)
    } else if e == LOWER_W {
        alnum(c)
    } else if e == UPPER_W {
        !alnum(c)
    } else if e == LOWER_S {
        whitespace(c)
    } else if e == UPPER_S {
        !whitespace(c)
    } else {
        c == e
    }
}

/// `s` starts with a range `lo-hi` that holds `c`. A dash is never a range
/// bound's subject: neither `c` nor `lo` may be one.
pub open spec fn range_match(c: u8, s: Seq<u8>) -> bool {
    s.len() >= 3 && s[1] == DASH && s[0] != DASH && c != DASH && s[0] <= c <= s[2]
}

/// Class membership, scanning the class body `buf` from index `i`.
pub open spec fn class_match_from(buf: Seq<u8>, i: int, c: u8) -> bool
    decreases buf.len() - i,
{
    if i < 0 || i >= buf.len() {
        false
    } else if range_match(c, buf.subrange(i, buf.len() as int)) {
        true
    } else if buf[i] == BACKSLASH {
        if i + 1 >= buf.len() {
            false
        } else if escape_match(buf[i + 1], c) {
            true
        } else {
            class_match_from(buf, i + 2, c)
        }
    } else if (i == 0 || i + 1 == buf.len()) && buf[i] == DASH && c == DASH {
        true
    } else if c != DASH && c == buf[i] {
        true
    } else {
        class_match_from(buf, i + 1, c)
    }
}

/// `c` belongs to the class whose body (the bytes between the brackets,
/// without a leading `^`) is `buf`.
pub open spec fn class_match(buf: Seq<u8>, c: u8) -> bool {
    class_match_from(buf, 0, c)
}

/// `.` takes every byte, a line feed too.
pub fn match_dot(c: u8) -> (r: bool)
    ensures
        r,
{
    true
}

/// Tests for `\d`.
pub fn match_digit(c: u8) -> (r: bool)
    ensures
        r == digit(c),
{
    c >= ZERO && c <= NINE
}

/// Tests for `\w`.
pub fn match_alphanum(c: u8) -> (r: bool)
    ensures
        r == alnum(c),
{
    (c >= LOWER_A && c <= LOWER_Z) || (c >= UPPER_A && c <= UPPER_Z) || c == UNDERSCORE
        || match_digit(c)
}

/// Tests for `\s`.
pub fn match_whitespace(c: u8) -> (r: bool)
    ensures
        r == whitespace(c),
{
    c == SPACE || c == TAB || c == LINE_FEED || c == CARRIAGE_RETURN || c == FORM_FEED || c
        == VERTICAL_TAB
}

/// Tests `c` against a backslash followed by `e`.
pub fn match_escape(e: u8, c: u8) -> (r: bool)
    ensures
        r == escape_match(e, c),
{
    if e == LOWER_D {
        match_digit(c)
    } else if e == UPPER_D {
        !match_digit(c)
    } else if e == LOWER_W {
        match_alphanum(c)
    } else if e == UPPER_W {
        !match_alphanum(c)
    } else if e == LOWER_S {
        match_whitespace(c)
    } else if e == UPPER_S {
        !match_whitespace(c)
    } else {
        c == e
    }
}

/// Tests whether `range` begins with a range `lo-hi` that holds `c`.
pub fn match_range(c: u8, range: &[u8]) -> (r: bool)
    ensures
        r == range_match(c, range@),
{
    range.len() >= 3 && c != DASH && range[0] != DASH && range[1] == DASH && c >= range[0] && c
        <= range[2]
}

/// Tests `c` against a class body. A backslash in the body's last place
/// makes the class reject `c` from there on.
pub fn match_class(class: &[u8], c: u8) -> (r: bool)
    ensures
        r == class_match(class@, c),
{
    let n: usize = class.len();
    let mut i: usize = 0;
    while i < n
        invariant
            n == class@.len(),
            i <= n,
            class_match(class@, c) == class_match_from(class@, i as int, c),
        decreases n - i,
    {
        if match_range(c, slice_subrange(class, i, n)) {
            return true;
        } else if class[i] == BACKSLASH {
            if i + 1 >= n {
                return false;
            }
            if match_escape(class[i + 1], c) {
                return true;
            }
            i += 2;
        } else if (i == 0 || i + 1 == n) && class[i] == DASH && c == DASH {
            return true;
        } else if c != DASH && c == class[i] {
            return true;
        } else {
            i += 1;
        }
    }
    false
}

} // verus!
