//! Greediness: what `*` and `+` match when they repeat a single atom.

use vstd::prelude::*;
use crate::chars::{
    BACKSLASH, CARET, CLOSE_PAREN, DOLLAR, OPEN_BRACKET, OPEN_PAREN, PERIOD, PLUS, QUESTION, STAR,
};
use crate::automaton::{accepted, entry, finishing_run, moves, reaches, runs};
use crate::compiler::{compiled, lemma_run_inv, lemma_run_prefix, Build};
use crate::matcher::{advance, closure, first_finished, found, scan, search, sweep, Lanes, Strand, MAX_DEPTH};
use crate::program::{Program, RegexObj, MAX_REGEXP_OBJECTS};

verus! {

/// `obj` is an instruction that consumes a byte.
pub open spec fn consuming(obj: RegexObj) -> bool {
    &&& obj != RegexObj::Unused
    &&& obj != RegexObj::Begin
    &&& obj != RegexObj::End
    &&& !(obj is Jmp)
    &&& !(obj is Split)
}

/// `prog` is what a single starred atom compiles to: a split that enters
/// the atom `atom` or passes it, the atom, and a jump back to the split.
pub open spec fn starred_atom(prog: Program, atom: RegexObj) -> bool {
    &&& prog.instrs.len() == MAX_REGEXP_OBJECTS
    &&& prog.instrs[0] == RegexObj::Split(1, 3)
    &&& prog.instrs[1] == atom
    &&& prog.instrs[2] == RegexObj::Jmp(0)
    &&& prog.instrs[3] == RegexObj::Unused
    &&& consuming(atom)
}

/// The offset at which the run of bytes that `atom` consumes, one after
/// the other from offset `i` on, comes to its end.
pub open spec fn run_end(prog: Program, atom: RegexObj, text: Seq<u8>, i: int) -> int
    decreases text.len() - i,
{
    if 0 <= i < text.len() && prog.accepts(atom, text[i]) {
        run_end(prog, atom, text, i + 1)
    } else {
        i
    }
}

/// The run that ends at `run_end` cannot be made longer: it ends at the
/// text's end or before a byte that `atom` does not consume, and `atom`
/// consumes every byte before.
pub proof fn lemma_run_end_is_maximal(prog: Program, atom: RegexObj, text: Seq<u8>, i: int)
    requires
        0 <= i <= text.len(),
    ensures
        i <= run_end(prog, atom, text, i) <= text.len(),
        forall|k: int| i <= k < run_end(prog, atom, text, i) ==> prog.accepts(atom, #[trigger] text[k]),
        run_end(prog, atom, text, i) < text.len() ==> !prog.accepts(
            atom,
            text[run_end(prog, atom, text, i)],
        ),
    decreases text.len() - i,
{
    if i < text.len() && prog.accepts(atom, text[i]) {
        lemma_run_end_is_maximal(prog, atom, text, i + 1);
    }
}

proof fn lemma_star_scan(prog: Program, atom: RegexObj, text: Seq<u8>, i: int)
    requires
        starred_atom(prog, atom),
        0 <= i <= text.len(),
    ensures
        scan(
            prog,
            text,
            i,
            seq![
                Strand { state: 1, start: 0, end: None },
                Strand { state: 3, start: 0, end: Some(i) },
            ],
            false,
        ) == Some((0int, run_end(prog, atom, text, i))),
    decreases text.len() - i,
{
    let looping = Strand { state: 1, start: 0, end: None };
    let done = Strand { state: 3, start: 0, end: Some(i) };
    let cur = seq![looping, done];
    reveal_with_fuel(first_finished, 3);
    reveal_with_fuel(sweep, 3);
    reveal_with_fuel(closure, 5);
    reveal_with_fuel(scan, 2);
    if i < text.len() {
        let c = text[i];
        let stepped = sweep(prog, cur, 0, Lanes::empty(), c, i);
        let seed = Strand { state: 0, start: i + 1, end: None };
        let next = closure(prog, stepped, seed, i + 1, MAX_DEPTH as nat);
        let after_first = advance(prog, Lanes::empty(), looping, c, i);
        assert(stepped == advance(prog, after_first, done, c, i));
        if prog.accepts(atom, c) {
            assert(after_first.strands =~= seq![
                looping,
                Strand { state: 3, start: 0, end: Some(i + 1) },
            ]);
            assert(after_first.seen[0] && after_first.seen[3]);
            assert(next == after_first);
            lemma_star_scan(prog, atom, text, i + 1);
        } else {
            assert(after_first == Lanes::empty());
            assert(stepped.strands =~= seq![done]);
            assert(stepped.seen[3] && !stepped.seen[0] && !stepped.seen[1]);
            assert(next.strands =~= seq![done, Strand { state: 1, start: i + 1, end: None }]);
            assert(scan(prog, text, i + 1, next.strands, false) == Some((0int, i)));
        }
    } else {
        assert(first_finished(prog, cur, 0, i) == Some((0int, i)));
    }
}

/// A single starred atom is greedy: its match begins at the start of the
/// text and ends where the run of bytes that the atom consumes ends.
pub proof fn lemma_star_is_greedy(prog: Program, atom: RegexObj, text: Seq<u8>)
    requires
        starred_atom(prog, atom),
    ensures
        found(prog, text) == Some((0int, run_end(prog, atom, text, 0))),
{
    reveal_with_fuel(closure, 5);
    let first = Strand { state: 0, start: 0, end: None };
    let lanes = closure(prog, Lanes::empty(), first, 0, MAX_DEPTH as nat);
    assert(lanes.strands =~= seq![
        Strand { state: 1, start: 0, end: None },
        Strand { state: 3, start: 0, end: Some(0int) },
    ]);
    lemma_star_scan(prog, atom, text, 0);
}

/// `prog` is what a single atom followed by `+` compiles to: the atom,
/// and a split that goes back to it or on.
pub open spec fn repeated_atom(prog: Program, atom: RegexObj) -> bool {
    &&& prog.instrs.len() == MAX_REGEXP_OBJECTS
    &&& prog.instrs[0] == atom
    &&& prog.instrs[1] == RegexObj::Split(0, 2)
    &&& prog.instrs[2] == RegexObj::Unused
    &&& consuming(atom)
}

/// The first offset from `i` on whose byte `atom` consumes, or the text's
/// length where there is none.
pub open spec fn first_accepted(prog: Program, atom: RegexObj, text: Seq<u8>, i: int) -> int
    decreases text.len() - i,
{
    if 0 <= i < text.len() && !prog.accepts(atom, text[i]) {
        first_accepted(prog, atom, text, i + 1)
    } else {
        i
    }
}

/// Where a single atom followed by `+` matches: from the first byte that
/// the atom consumes to the end of the run that begins there.
pub open spec fn longest_first_run(prog: Program, atom: RegexObj, text: Seq<u8>, i: int) -> Option<
    (int, int),
> {
    let s = first_accepted(prog, atom, text, i);
    if s < text.len() {
        Some((s, run_end(prog, atom, text, s)))
    } else {
        None
    }
}

proof fn lemma_plus_scan_running(prog: Program, atom: RegexObj, text: Seq<u8>, s: int, i: int)
    requires
        repeated_atom(prog, atom),
        0 <= s < i <= text.len(),
    ensures
        scan(
            prog,
            text,
            i,
            seq![
                Strand { state: 0, start: s, end: None },
                Strand { state: 2, start: s, end: Some(i) },
            ],
            false,
        ) == Some((s, run_end(prog, atom, text, i))),
    decreases text.len() - i,
{
    let looping = Strand { state: 0, start: s, end: None };
    let done = Strand { state: 2, start: s, end: Some(i) };
    let cur = seq![looping, done];
    reveal_with_fuel(first_finished, 3);
    reveal_with_fuel(sweep, 3);
    reveal_with_fuel(closure, 4);
    reveal_with_fuel(scan, 2);
    if i < text.len() {
        let c = text[i];
        let stepped = sweep(prog, cur, 0, Lanes::empty(), c, i);
        let seed = Strand { state: 0, start: i + 1, end: None };
        let next = closure(prog, stepped, seed, i + 1, MAX_DEPTH as nat);
        let after_first = advance(prog, Lanes::empty(), looping, c, i);
        assert(stepped == advance(prog, after_first, done, c, i));
        if prog.accepts(atom, c) {
            assert(after_first.strands =~= seq![
                looping,
                Strand { state: 2, start: s, end: Some(i + 1) },
            ]);
            assert(after_first.seen[0] && after_first.seen[2]);
            assert(next == after_first);
            lemma_plus_scan_running(prog, atom, text, s, i + 1);
        } else {
            assert(after_first == Lanes::empty());
            assert(stepped.strands =~= seq![done]);
            assert(stepped.seen[2] && !stepped.seen[0]);
            assert(next.strands =~= seq![done, seed]);
            assert(scan(prog, text, i + 1, next.strands, false) == Some((s, i)));
        }
    } else {
        assert(first_finished(prog, cur, 0, i) == Some((s, i)));
    }
}

proof fn lemma_plus_scan_seeking(prog: Program, atom: RegexObj, text: Seq<u8>, i: int)
    requires
        repeated_atom(prog, atom),
        0 <= i <= text.len(),
    ensures
        scan(prog, text, i, seq![Strand { state: 0, start: i, end: None }], false)
            == longest_first_run(prog, atom, text, i),
    decreases text.len() - i,
{
    let seeking = Strand { state: 0, start: i, end: None };
    let cur = seq![seeking];
    reveal_with_fuel(first_finished, 2);
    reveal_with_fuel(sweep, 2);
    reveal_with_fuel(closure, 4);
    if i < text.len() {
        let c = text[i];
        let stepped = sweep(prog, cur, 0, Lanes::empty(), c, i);
        let seed = Strand { state: 0, start: i + 1, end: None };
        let next = closure(prog, stepped, seed, i + 1, MAX_DEPTH as nat);
        assert(stepped == advance(prog, Lanes::empty(), seeking, c, i));
        if prog.accepts(atom, c) {
            assert(stepped.strands =~= seq![
                seeking,
                Strand { state: 2, start: i, end: Some(i + 1) },
            ]);
            assert(stepped.seen[0]);
            assert(next == stepped);
            lemma_plus_scan_running(prog, atom, text, i, i + 1);
        } else {
            assert(stepped == Lanes::empty());
            assert(next.strands =~= seq![seed]);
            lemma_plus_scan_seeking(prog, atom, text, i + 1);
        }
    } else {
        assert(first_finished(prog, cur, 0, i) is None);
    }
}

/// A single atom followed by `+` is greedy: its match begins at the first
/// byte that the atom consumes and ends where the run of such bytes ends.
/// Without such a byte there is no match.
pub proof fn lemma_plus_is_greedy(prog: Program, atom: RegexObj, text: Seq<u8>)
    requires
        repeated_atom(prog, atom),
    ensures
        found(prog, text) == longest_first_run(prog, atom, text, 0),
{
    reveal_with_fuel(closure, 2);
    let first = Strand { state: 0, start: 0, end: None };
    let lanes = closure(prog, Lanes::empty(), first, 0, MAX_DEPTH as nat);
    assert(lanes.strands =~= seq![first]);
    lemma_plus_scan_seeking(prog, atom, text, 0);
}

proof fn lemma_star_runs_stay(
    prog: Program,
    atom: RegexObj,
    text: Seq<u8>,
    q: int,
    j: int,
    n: nat,
)
    requires
        starred_atom(prog, atom),
        reaches(prog, text, 0, 0, q, j, n),
    ensures
        0 <= q <= 3,
        0 <= j <= run_end(prog, atom, text, 0),
    decreases n,
{
    lemma_run_end_is_maximal(prog, atom, text, 0);
    if n > 0 {
        let (m, k) = choose|m: int, k: int|
            #![trigger moves(prog, text, m, k, q, j)]
            reaches(prog, text, 0, 0, m, k, (n - 1) as nat) && moves(prog, text, m, k, q, j);
        lemma_star_runs_stay(prog, atom, text, m, k, (n - 1) as nat);
    }
}

/// A single starred atom matches as much as the automaton accepts from the
/// start of the text: no accepted span that begins there ends later.
pub proof fn lemma_star_match_is_longest(prog: Program, atom: RegexObj, text: Seq<u8>, other: int)
    requires
        starred_atom(prog, atom),
        accepted(prog, text, 0, other),
    ensures
        found(prog, text) matches Some((s, e)) && s == 0 && other <= e,
{
    lemma_star_is_greedy(prog, atom, text);
    let q = choose|q: int| #[trigger]
        runs(prog, text, entry(prog), 0, q, other) && (prog.instr_at(q) == RegexObj::Unused || (
        prog.instr_at(q) == RegexObj::End && other == text.len()));
    assert(finishing_run(prog, text, 0, other));
    let n = choose|n: nat| reaches(prog, text, 0, 0, q, other, n);
    lemma_star_runs_stay(prog, atom, text, q, other, n);
}

proof fn lemma_plus_runs_stay(
    prog: Program,
    atom: RegexObj,
    text: Seq<u8>,
    s: int,
    q: int,
    j: int,
    n: nat,
)
    requires
        repeated_atom(prog, atom),
        0 <= s <= text.len(),
        reaches(prog, text, 0, s, q, j, n),
    ensures
        0 <= q <= 2,
        s <= j <= run_end(prog, atom, text, s),
    decreases n,
{
    lemma_run_end_is_maximal(prog, atom, text, s);
    if n > 0 {
        let (m, k) = choose|m: int, k: int|
            #![trigger moves(prog, text, m, k, q, j)]
            reaches(prog, text, 0, s, m, k, (n - 1) as nat) && moves(prog, text, m, k, q, j);
        lemma_plus_runs_stay(prog, atom, text, s, m, k, (n - 1) as nat);
    }
}

/// A single atom followed by `+` matches as much as the automaton accepts
/// from the offset at which the match begins: no accepted span that begins
/// there ends later.
pub proof fn lemma_plus_match_is_longest(prog: Program, atom: RegexObj, text: Seq<u8>, other: int)
    requires
        repeated_atom(prog, atom),
        found(prog, text) matches Some((s, e)) && accepted(prog, text, s, other),
    ensures
        found(prog, text) matches Some((s, e)) && other <= e,
{
    lemma_plus_is_greedy(prog, atom, text);
    let s = found(prog, text).unwrap().0;
    assert(finishing_run(prog, text, s, other));
    let q = choose|q: int| #[trigger]
        runs(prog, text, entry(prog), s, q, other) && (prog.instr_at(q) == RegexObj::Unused || (
        prog.instr_at(q) == RegexObj::End && other == text.len()));
    let n = choose|n: nat| reaches(prog, text, 0, s, q, other, n);
    lemma_first_accepted_bounds(prog, atom, text, 0);
    lemma_plus_runs_stay(prog, atom, text, s, q, other, n);
}

proof fn lemma_first_accepted_bounds(prog: Program, atom: RegexObj, text: Seq<u8>, i: int)
    requires
        0 <= i <= text.len(),
    ensures
        i <= first_accepted(prog, atom, text, i) <= text.len(),
    decreases text.len() - i,
{
    if i < text.len() && !prog.accepts(atom, text[i]) {
        lemma_first_accepted_bounds(prog, atom, text, i + 1);
    }
}

/// The pattern `a` is a single atom: it compiles to one instruction that
/// consumes a byte, be it a literal, `.`, an escape or a class, in
/// parentheses or not.
pub open spec fn single_atom(a: Seq<u8>) -> bool {
    Build::start().run(a) matches Some(b) && b.len == 1 && b.restart == 0 && consuming(
        b.prog.instrs[0],
    )
}

/// A single atom followed by `*` matches, at the start of the text, the
/// longest run of bytes that the atom consumes.
pub proof fn lemma_starred_atom(a: Seq<u8>, text: Seq<u8>)
    requires
        single_atom(a),
    ensures
        compiled(a.push(STAR)) matches Some(prog) && starred_atom(prog, prog.instrs[1]) && search(
            a.push(STAR),
            text,
        ) == Some((0int, run_end(prog, prog.instrs[1], text, 0))),
        compiled(a.push(STAR)).unwrap().instrs[1] == Build::start().run(a).unwrap().prog.instrs[0],
{
    let p = a.push(STAR);
    let b0 = Build::start();
    lemma_run_inv(a, b0);
    lemma_run_prefix(a, STAR, b0);
    let mid = b0.run(a).unwrap();
    let end = mid.step(p).unwrap();
    assert(end.run(p) == Some(end));
    lemma_star_is_greedy(end.prog, end.prog.instrs[1], text);
}

/// A single atom followed by `+` matches the first run of bytes that the
/// atom consumes, as far as it goes.
pub proof fn lemma_repeated_atom(a: Seq<u8>, text: Seq<u8>)
    requires
        single_atom(a),
    ensures
        compiled(a.push(PLUS)) matches Some(prog) && repeated_atom(prog, prog.instrs[0]) && search(
            a.push(PLUS),
            text,
        ) == longest_first_run(prog, prog.instrs[0], text, 0),
        compiled(a.push(PLUS)).unwrap().instrs[0] == Build::start().run(a).unwrap().prog.instrs[0],
{
    let p = a.push(PLUS);
    let b0 = Build::start();
    lemma_run_inv(a, b0);
    lemma_run_prefix(a, PLUS, b0);
    let mid = b0.run(a).unwrap();
    let end = mid.step(p).unwrap();
    assert(end.run(p) == Some(end));
    lemma_plus_is_greedy(end.prog, end.prog.instrs[0], text);
}

/// `c` has no meaning of its own in a pattern: it stands for itself.
pub open spec fn literal(c: u8) -> bool {
    &&& c != OPEN_PAREN
    &&& c != CLOSE_PAREN
    &&& c != PLUS
    &&& c != STAR
    &&& c != QUESTION
    &&& c != OPEN_BRACKET
    &&& c != BACKSLASH
    &&& c != CARET
    &&& c != DOLLAR
    &&& c != PERIOD
}

/// A literal byte is a single atom.
pub proof fn lemma_literal_is_atom(c: u8)
    requires
        literal(c),
    ensures
        single_atom(seq![c]),
        Build::start().run(seq![c]).unwrap().prog.instrs[0] == RegexObj::Char(c),
{
    reveal_with_fuel(Build::run, 2);
    let p = seq![c];
    let b0 = Build::start();
    let b1 = b0.step(p).unwrap();
    assert(b0.run(p) == Some(b1));
}

} // verus!
