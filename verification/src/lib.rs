//! A tiny regular-expression engine with fixed capacity and no allocation.
//!
//! A pattern is compiled into a [`Regex`]: at most [`MAX_REGEXP_OBJECTS`]
//! instructions beside a buffer of [`MAX_CHAR_CLASS_LEN`] character-class
//! bytes. Matching simulates the program as a nondeterministic automaton and
//! reports the first match as a sub-slice of the text.
//!
//! - [`chars`]: the byte predicates and the class sub-language;
//! - [`program`]: the instructions and the compiled program;
//! - [`compiler`]: from a pattern to a program;
//! - [`matcher`]: from a program and a text to a match;
//! - [`automaton`]: the program as an automaton, of which every match is an
//!   accepted span;
//! - [`leftmost`]: no accepted span begins before the match;
//! - [`laws`]: matches lie in the text, and anchors hold them to its ends;
//! - [`greedy`]: `*` and `+` on a single atom take the longest run.

use vstd::prelude::*;

pub mod automaton;
pub mod chars;
pub mod compiler;
pub mod greedy;
pub mod laws;
pub mod leftmost;
pub mod matcher;
pub mod program;

pub use matcher::{matches_nfa, NfaStateInfo};
pub use program::{Program, Regex, RegexObj, MAX_CHAR_CLASS_LEN, MAX_NESTING, MAX_REGEXP_OBJECTS};

verus! {

/// Compiles `pattern` and finds its first match in `text`. A pattern that
/// does not compile matches nothing.
pub fn matches<'t>(pattern: &[u8], text: &'t [u8]) -> (r: Option<&'t [u8]>)
    ensures
        matcher::slice_of(text@, matcher::search(pattern@, text@), r),
        compiler::compiled(pattern@) is None ==> r is None,
{
    match Regex::compile(pattern) {
        Some(regex) => regex.matches(text),
        None => None,
    }
}

} // verus!
