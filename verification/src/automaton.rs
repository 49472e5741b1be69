//! What a program means as an automaton, and the proof that the matcher
//! reports only what the automaton accepts.

use vstd::prelude::*;
use crate::compiler::compiled;
use crate::laws::lemma_anchored_match_begins_text;
use crate::matcher::{
    advance, closure, first_finished, found, scan, search, sweep, Lanes, Strand, MAX_DEPTH,
};
use crate::program::{Program, RegexObj};

verus! {

/// One move of the automaton, from state `q` at text offset `i` to state
/// `r` at offset `j`: a jump or either branch of a split, at the same
/// offset, or one byte consumed by the instruction at `q`.
pub open spec fn moves(prog: Program, text: Seq<u8>, q: int, i: int, r: int, j: int) -> bool {
    match prog.instr_at(q) {
        RegexObj::Jmp(to) => r == to && j == i,
        RegexObj::Split(a, b) => (r == a || r == b) && j == i,
        obj => 0 <= i < text.len() && prog.accepts(obj, text[i]) && r == q + 1 && j == i + 1,
    }
}

/// `n` moves lead from state `q` at offset `i` to state `r` at offset `j`.
pub open spec fn reaches(
    prog: Program,
    text: Seq<u8>,
    q: int,
    i: int,
    r: int,
    j: int,
    n: nat,
) -> bool
    decreases n,
{
    if n == 0 {
        r == q && j == i
    } else {
        exists|m: int, k: int|
            #![trigger moves(prog, text, m, k, r, j)]
            reaches(prog, text, q, i, m, k, (n - 1) as nat) && moves(prog, text, m, k, r, j)
    }
}

/// Some number of moves leads from state `q` at offset `i` to state `r` at
/// offset `j`.
pub open spec fn runs(prog: Program, text: Seq<u8>, q: int, i: int, r: int, j: int) -> bool {
    exists|n: nat| reaches(prog, text, q, i, r, j, n)
}

/// The state in which a match begins: slot 0, or slot 1 behind a `Begin`.
pub open spec fn entry(prog: Program) -> int {
    if prog.instr_at(0) == RegexObj::Begin {
        1
    } else {
        0
    }
}

/// Moves lead from the entry at `s` to an instruction at which a thread
/// has matched at `e`: to `Unused`, or to `End` where the text ends at `e`.
pub open spec fn finishing_run(prog: Program, text: Seq<u8>, s: int, e: int) -> bool {
    exists|q: int| #[trigger]
        runs(prog, text, entry(prog), s, q, e) && (prog.instr_at(q) == RegexObj::Unused || (
        prog.instr_at(q) == RegexObj::End && e == text.len()))
}

/// The automaton accepts the text between the offsets `s` and `e`: a
/// finishing run leads from `s` to `e`. An anchored program accepts only
/// from offset 0.
pub open spec fn accepted(prog: Program, text: Seq<u8>, s: int, e: int) -> bool {
    &&& prog.instr_at(0) == RegexObj::Begin ==> s == 0
    &&& finishing_run(prog, text, s, e)
}

proof fn lemma_runs_nowhere(prog: Program, text: Seq<u8>, q: int, i: int)
    ensures
        runs(prog, text, q, i, q, i),
{
    assert(reaches(prog, text, q, i, q, i, 0));
}

proof fn lemma_runs_on(prog: Program, text: Seq<u8>, q: int, i: int, m: int, k: int, r: int, j: int)
    requires
        runs(prog, text, q, i, m, k),
        moves(prog, text, m, k, r, j),
    ensures
        runs(prog, text, q, i, r, j),
{
    let n = choose|n: nat| reaches(prog, text, q, i, m, k, n);
    let longer: nat = n + 1;
    assert((longer - 1) as nat == n);
    assert(reaches(prog, text, q, i, m, k, (longer - 1) as nat) && moves(prog, text, m, k, r, j));
    assert(reaches(prog, text, q, i, r, j, longer));
}

/// The thread `t`, taken at offset `at`, stands where moves from the entry
/// lead, and it has ended if and only if it stands at `Unused`.
pub open spec fn backed(prog: Program, text: Seq<u8>, t: Strand, at: int) -> bool {
    &&& runs(prog, text, entry(prog), t.start, t.state, t.finish(at))
    &&& (t.end is Some <==> prog.instr_at(t.state) == RegexObj::Unused)
}

/// Every thread is backed by a run.
pub open spec fn all_backed(prog: Program, text: Seq<u8>, strands: Seq<Strand>, at: int) -> bool {
    forall|k: int| 0 <= k < strands.len() ==> backed(prog, text, #[trigger] strands[k], at)
}

proof fn lemma_closure_backed(
    prog: Program,
    text: Seq<u8>,
    lanes: Lanes,
    t: Strand,
    at: int,
    depth: nat,
)
    requires
        all_backed(prog, text, lanes.strands, at),
        runs(prog, text, entry(prog), t.start, t.state, t.finish(at)),
        t.end is Some ==> prog.instr_at(t.state) == RegexObj::Unused,
    ensures
        all_backed(prog, text, closure(prog, lanes, t, at, depth).strands, at),
    decreases depth,
{
    if depth == 0 || t.state < 0 || t.state >= lanes.seen.len() || lanes.seen[t.state] {
    } else {
        let marked = Lanes { seen: lanes.seen.update(t.state, true), ..lanes };
        let deeper = (depth - 1) as nat;
        let e = entry(prog);
        match prog.instr_at(t.state) {
            RegexObj::Jmp(to) => {
                let u = Strand { state: to as int, ..t };
                lemma_runs_on(prog, text, e, t.start, t.state, at, u.state, at);
                lemma_closure_backed(prog, text, marked, u, at, deeper);
            },
            RegexObj::Split(a, b) => {
                let u = Strand { state: a as int, ..t };
                let v = Strand { state: b as int, ..t };
                lemma_runs_on(prog, text, e, t.start, t.state, at, u.state, at);
                lemma_runs_on(prog, text, e, t.start, t.state, at, v.state, at);
                lemma_closure_backed(prog, text, marked, u, at, deeper);
                lemma_closure_backed(
                    prog,
                    text,
                    closure(prog, marked, u, at, deeper),
                    v,
                    at,
                    deeper,
                );
            },
            _ => {},
        }
    }
}

proof fn lemma_advance_backed(prog: Program, text: Seq<u8>, next: Lanes, t: Strand, at: int)
    requires
        0 <= at < text.len(),
        all_backed(prog, text, next.strands, at + 1),
        backed(prog, text, t, at),
    ensures
        all_backed(prog, text, advance(prog, next, t, text[at], at).strands, at + 1),
{
    let obj = prog.instr_at(t.state);
    if obj == RegexObj::Unused {
        lemma_closure_backed(prog, text, next, t, at + 1, MAX_DEPTH as nat);
    } else if prog.accepts(obj, text[at]) {
        let u = Strand { state: t.state + 1, ..t };
        lemma_runs_on(prog, text, entry(prog), t.start, t.state, at, u.state, at + 1);
        lemma_closure_backed(prog, text, next, u, at + 1, MAX_DEPTH as nat);
    }
}

proof fn lemma_sweep_backed(
    prog: Program,
    text: Seq<u8>,
    cur: Seq<Strand>,
    k: int,
    next: Lanes,
    at: int,
)
    requires
        0 <= at < text.len(),
        all_backed(prog, text, cur, at),
        all_backed(prog, text, next.strands, at + 1),
    ensures
        all_backed(prog, text, sweep(prog, cur, k, next, text[at], at).strands, at + 1),
    decreases cur.len() - k,
{
    if 0 <= k < cur.len() {
        lemma_advance_backed(prog, text, next, cur[k], at);
        lemma_sweep_backed(prog, text, cur, k + 1, advance(prog, next, cur[k], text[at], at), at);
    }
}

proof fn lemma_first_finished_backed(prog: Program, text: Seq<u8>, cur: Seq<Strand>, k: int)
    requires
        all_backed(prog, text, cur, text.len() as int),
    ensures
        first_finished(prog, cur, k, text.len() as int) matches Some((s, e)) ==> finishing_run(
            prog,
            text,
            s,
            e,
        ),
    decreases cur.len() - k,
{
    if 0 <= k < cur.len() {
        let t = cur[k];
        let obj = prog.instr_at(t.state);
        if obj == RegexObj::Unused || obj == RegexObj::End {
            assert(runs(prog, text, entry(prog), t.start, t.state, t.finish(text.len() as int)));
        } else {
            lemma_first_finished_backed(prog, text, cur, k + 1);
        }
    }
}

proof fn lemma_scan_backed(prog: Program, text: Seq<u8>, i: int, cur: Seq<Strand>, anchored: bool)
    requires
        0 <= i <= text.len(),
        all_backed(prog, text, cur, i),
        !anchored ==> entry(prog) == 0,
    ensures
        scan(prog, text, i, cur, anchored) matches Some((s, e)) ==> finishing_run(prog, text, s, e),
    decreases text.len() - i,
{
    if i >= text.len() {
        lemma_first_finished_backed(prog, text, cur, 0);
    } else if cur.len() == 0 {
    } else if prog.instr_at(cur[0].state) == RegexObj::Unused {
        assert(runs(prog, text, entry(prog), cur[0].start, cur[0].state, cur[0].finish(i)));
    } else {
        let stepped = sweep(prog, cur, 0, Lanes::empty(), text[i], i);
        lemma_sweep_backed(prog, text, cur, 0, Lanes::empty(), i);
        let seed = Strand { state: 0, start: i + 1, end: None };
        let next = if anchored {
            stepped
        } else {
            closure(prog, stepped, seed, i + 1, MAX_DEPTH as nat)
        };
        if !anchored {
            lemma_runs_nowhere(prog, text, 0, i + 1);
            lemma_closure_backed(prog, text, stepped, seed, i + 1, MAX_DEPTH as nat);
        }
        lemma_scan_backed(prog, text, i + 1, next.strands, anchored);
    }
}

/// The matcher reports only what the automaton accepts: moves of the
/// program lead from its entry, at the offset where the match begins, to
/// the offset where it ends, and finish there.
pub proof fn lemma_match_is_accepted(prog: Program, text: Seq<u8>)
    ensures
        found(prog, text) matches Some((s, e)) ==> accepted(prog, text, s, e),
{
    let anchored = prog.instr_at(0) == RegexObj::Begin;
    let first = Strand { state: entry(prog), start: 0, end: None };
    if anchored {
        lemma_anchored_match_begins_text(prog, text);
    }
    lemma_runs_nowhere(prog, text, entry(prog), 0);
    lemma_closure_backed(prog, text, Lanes::empty(), first, 0, MAX_DEPTH as nat);
    lemma_scan_backed(
        prog,
        text,
        0,
        closure(prog, Lanes::empty(), first, 0, MAX_DEPTH as nat).strands,
        anchored,
    );
}

/// A pattern's match is a span that its program accepts.
pub proof fn lemma_search_is_accepted(p: Seq<u8>, text: Seq<u8>)
    ensures
        search(p, text) matches Some((s, e)) ==> compiled(p) matches Some(prog) && accepted(
            prog,
            text,
            s,
            e,
        ),
{
    if let Some(prog) = compiled(p) {
        lemma_match_is_accepted(prog, text);
    }
}

} // verus!
