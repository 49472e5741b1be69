//! What holds of every match, proved over the models of the compiler and
//! the matcher.

use vstd::prelude::*;
use crate::chars::{CARET, DOLLAR, OPEN_PAREN, PLUS, QUESTION, STAR};
use crate::compiler::{compiled, lemma_run_inv, lemma_run_prefix, lemma_step_inv, Build};
use crate::matcher::{
    advance, closure, first_finished, found, scan, search, sweep, Lanes, Strand, MAX_DEPTH,
};
use crate::program::{Program, RegexObj, MAX_CHAR_CLASS_LEN};

verus! {

/// The first `n` slots of `prog` are all taken, the last of them holds
/// `End`, and no jump leads past it: a thread can only finish by standing
/// at that `End` when the text is used up.
pub open spec fn end_anchored(prog: Program, n: int) -> bool {
    &&& 0 < n <= prog.instrs.len()
    &&& prog.instrs[n - 1] == RegexObj::End
    &&& forall|k: int|
        0 <= k < n ==> (#[trigger] prog.instrs[k]) != RegexObj::Unused && Program::fits(
            prog.instrs[k],
            n - 1,
            MAX_CHAR_CLASS_LEN as int,
        )
}

/// What holds of a thread that is alive at text offset `at`: its match
/// began at or before `at` and, if it has ended, ended between the two. In
/// an anchored run it began at 0. In a program that is end-anchored over
/// its first `n` slots (`n == 0` says that it need not be) it stands inside
/// them and has not ended.
pub open spec fn sound(t: Strand, at: int, anchored: bool, n: int) -> bool {
    &&& 0 <= t.start <= at
    &&& (t.end matches Some(e) ==> t.start <= e <= at)
    &&& (anchored ==> t.start == 0)
    &&& (n > 0 ==> 0 <= t.state < n && t.end is None)
}

/// Every thread is sound.
pub open spec fn all_sound(strands: Seq<Strand>, at: int, anchored: bool, n: int) -> bool {
    forall|k: int| 0 <= k < strands.len() ==> sound(#[trigger] strands[k], at, anchored, n)
}

/// What holds of a match in a text of length `len` when it was taken from
/// sound threads.
pub open spec fn sound_span(r: Option<(int, int)>, len: int, anchored: bool, n: int) -> bool {
    r matches Some((s, e)) ==> {
        &&& 0 <= s <= e <= len
        &&& (anchored ==> s == 0)
        &&& (n > 0 ==> e == len)
    }
}

proof fn lemma_closure_sound(
    prog: Program,
    lanes: Lanes,
    t: Strand,
    at: int,
    depth: nat,
    anchored: bool,
    n: int,
)
    requires
        all_sound(lanes.strands, at, anchored, n),
        sound(t, at, anchored, n),
        n > 0 ==> end_anchored(prog, n),
    ensures
        all_sound(closure(prog, lanes, t, at, depth).strands, at, anchored, n),
    decreases depth,
{
    if depth == 0 || t.state < 0 || t.state >= lanes.seen.len() || lanes.seen[t.state] {
    } else {
        let marked = Lanes { seen: lanes.seen.update(t.state, true), ..lanes };
        let deeper = (depth - 1) as nat;
        if n > 0 {
            assert(prog.instr_at(t.state) == prog.instrs[t.state]);
        }
        match prog.instr_at(t.state) {
            RegexObj::Jmp(to) => {
                lemma_closure_sound(
                    prog,
                    marked,
                    Strand { state: to as int, ..t },
                    at,
                    deeper,
                    anchored,
                    n,
                );
            },
            RegexObj::Split(a, b) => {
                let left = closure(prog, marked, Strand { state: a as int, ..t }, at, deeper);
                lemma_closure_sound(
                    prog,
                    marked,
                    Strand { state: a as int, ..t },
                    at,
                    deeper,
                    anchored,
                    n,
                );
                lemma_closure_sound(
                    prog,
                    left,
                    Strand { state: b as int, ..t },
                    at,
                    deeper,
                    anchored,
                    n,
                );
            },
            _ => {},
        }
    }
}

proof fn lemma_advance_sound(
    prog: Program,
    next: Lanes,
    t: Strand,
    c: u8,
    at: int,
    anchored: bool,
    n: int,
)
    requires
        all_sound(next.strands, at + 1, anchored, n),
        sound(t, at, anchored, n),
        n > 0 ==> end_anchored(prog, n),
    ensures
        all_sound(advance(prog, next, t, c, at).strands, at + 1, anchored, n),
{
    let obj = prog.instr_at(t.state);
    if n > 0 {
        assert(obj == prog.instrs[t.state]);
    }
    if obj == RegexObj::Unused {
        lemma_closure_sound(prog, next, t, at + 1, MAX_DEPTH as nat, anchored, n);
    } else if prog.accepts(obj, c) {
        lemma_closure_sound(
            prog,
            next,
            Strand { state: t.state + 1, ..t },
            at + 1,
            MAX_DEPTH as nat,
            anchored,
            n,
        );
    }
}

proof fn lemma_sweep_sound(
    prog: Program,
    cur: Seq<Strand>,
    k: int,
    next: Lanes,
    c: u8,
    at: int,
    anchored: bool,
    n: int,
)
    requires
        all_sound(cur, at, anchored, n),
        all_sound(next.strands, at + 1, anchored, n),
        n > 0 ==> end_anchored(prog, n),
    ensures
        all_sound(sweep(prog, cur, k, next, c, at).strands, at + 1, anchored, n),
    decreases cur.len() - k,
{
    if 0 <= k < cur.len() {
        lemma_advance_sound(prog, next, cur[k], c, at, anchored, n);
        lemma_sweep_sound(prog, cur, k + 1, advance(prog, next, cur[k], c, at), c, at, anchored, n);
    }
}

proof fn lemma_first_finished_sound(
    prog: Program,
    cur: Seq<Strand>,
    k: int,
    len: int,
    anchored: bool,
    n: int,
)
    requires
        all_sound(cur, len, anchored, n),
    ensures
        sound_span(first_finished(prog, cur, k, len), len, anchored, n),
    decreases cur.len() - k,
{
    if 0 <= k < cur.len() {
        lemma_first_finished_sound(prog, cur, k + 1, len, anchored, n);
    }
}

proof fn lemma_scan_sound(
    prog: Program,
    text: Seq<u8>,
    i: int,
    cur: Seq<Strand>,
    anchored: bool,
    n: int,
)
    requires
        0 <= i <= text.len(),
        all_sound(cur, i, anchored, n),
        n > 0 ==> end_anchored(prog, n),
    ensures
        sound_span(scan(prog, text, i, cur, anchored), text.len() as int, anchored, n),
    decreases text.len() - i,
{
    if i >= text.len() {
        lemma_first_finished_sound(prog, cur, 0, text.len() as int, anchored, n);
    } else if cur.len() == 0 {
    } else if prog.instr_at(cur[0].state) == RegexObj::Unused {
        if n > 0 {
            assert(prog.instr_at(cur[0].state) == prog.instrs[cur[0].state]);
        }
    } else {
        let stepped = sweep(prog, cur, 0, Lanes::empty(), text[i], i);
        lemma_sweep_sound(prog, cur, 0, Lanes::empty(), text[i], i, anchored, n);
        let seed = Strand { state: 0, start: i + 1, end: None };
        let next = if anchored {
            stepped
        } else {
            closure(prog, stepped, seed, i + 1, MAX_DEPTH as nat)
        };
        if !anchored {
            lemma_closure_sound(prog, stepped, seed, i + 1, MAX_DEPTH as nat, anchored, n);
        }
        lemma_scan_sound(prog, text, i + 1, next.strands, anchored, n);
    }
}

proof fn lemma_found_sound(prog: Program, text: Seq<u8>, n: int)
    requires
        n > 0 ==> end_anchored(prog, n),
    ensures
        sound_span(
            found(prog, text),
            text.len() as int,
            prog.instr_at(0) == RegexObj::Begin,
            n,
        ),
{
    let anchored = prog.instr_at(0) == RegexObj::Begin;
    let first = Strand { state: if anchored { 1 } else { 0 }, start: 0, end: None };
    lemma_closure_sound(prog, Lanes::empty(), first, 0, MAX_DEPTH as nat, anchored, n);
    lemma_scan_sound(
        prog,
        text,
        0,
        closure(prog, Lanes::empty(), first, 0, MAX_DEPTH as nat).strands,
        anchored,
        n,
    );
}

/// A match lies inside the text: it begins at or before the offset at which
/// it ends, and ends at or before the text's end.
pub proof fn lemma_match_within_text(prog: Program, text: Seq<u8>)
    ensures
        found(prog, text) matches Some((s, e)) ==> 0 <= s <= e <= text.len(),
{
    lemma_found_sound(prog, text, 0);
}

/// In a program whose slot 0 holds `Begin`, a match begins at the start of
/// the text.
pub proof fn lemma_anchored_match_begins_text(prog: Program, text: Seq<u8>)
    requires
        prog.instr_at(0) == RegexObj::Begin,
    ensures
        found(prog, text) matches Some((s, e)) ==> s == 0,
{
    lemma_found_sound(prog, text, 0);
}

/// In a program that is end-anchored over its first `n` slots, a match ends
/// at the end of the text.
pub proof fn lemma_end_anchored_match_ends_text(prog: Program, text: Seq<u8>, n: int)
    requires
        end_anchored(prog, n),
    ensures
        found(prog, text) matches Some((s, e)) ==> e == text.len(),
{
    lemma_found_sound(prog, text, n);
}

/// The empty pattern compiles to the blank program, and the blank program
/// matches the empty string at offset 0 of every text, the empty text too.
pub proof fn lemma_empty_pattern(text: Seq<u8>)
    ensures
        compiled(Seq::<u8>::empty()) == Some(Program::blank()),
        found(Program::blank(), text) == Some((0int, 0int)),
        search(Seq::<u8>::empty(), text) == Some((0int, 0int)),
{
    let prog = Program::blank();
    let first = Strand { state: 0, start: 0, end: None };
    let lanes = closure(prog, Lanes::empty(), first, 0, MAX_DEPTH as nat);
    assert(prog.instr_at(0) == RegexObj::Unused);
    assert(lanes.strands =~= seq![Strand { state: 0, start: 0, end: Some(0int) }]);
    assert(lanes.strands[0].finish(text.len() as int) == 0);
}

/// A text has no match for a pattern that does not compile.
pub proof fn lemma_no_program_no_match(p: Seq<u8>, text: Seq<u8>)
    requires
        compiled(p) is None,
    ensures
        search(p, text) is None,
{
}

/// Between the byte at `k` and the `^` before it (with only `(` and `+` in
/// between) stands no `*` or `?`: no quantifier takes the anchor for its
/// atom and moves it out of slot 0.
pub open spec fn anchor_kept(p: Seq<u8>, k: int) -> bool
    decreases p.len() - k,
{
    if k < 0 || k >= p.len() {
        true
    } else if p[k] == OPEN_PAREN || p[k] == PLUS {
        anchor_kept(p, k + 1)
    } else {
        p[k] != STAR && p[k] != QUESTION
    }
}

/// The compiler has emitted `Begin` into slot 0 and nothing that follows in
/// `p` will move it.
pub open spec fn guarded(b: Build, p: Seq<u8>) -> bool {
    &&& b.len >= 1
    &&& b.prog.instrs[0] == RegexObj::Begin
    &&& forall|g: int| 0 <= g < b.groups.len() ==> #[trigger] b.groups[g] >= 1
    &&& (b.restart >= 1 || anchor_kept(p, b.pos))
}

proof fn lemma_step_guarded(p: Seq<u8>, b: Build)
    requires
        b.inv(),
        guarded(b, p),
        0 <= b.pos < p.len(),
    ensures
        b.step(p) matches Some(next) ==> guarded(next, p),
{
}

proof fn lemma_run_guarded(p: Seq<u8>, b: Build)
    requires
        b.inv(),
        guarded(b, p),
        0 <= b.pos <= p.len(),
    ensures
        b.run(p) matches Some(end) ==> end.inv() && guarded(end, p),
    decreases p.len() - b.pos,
{
    if b.pos < p.len() {
        lemma_step_inv(p, b);
        lemma_step_guarded(p, b);
        if let Some(next) = b.step(p) {
            lemma_run_guarded(p, next);
        }
    }
}

/// A pattern that begins with `^` matches only at the start of the text,
/// provided that no `*` or `?` takes the anchor itself for its atom.
pub proof fn lemma_caret_begins_text(p: Seq<u8>, text: Seq<u8>)
    requires
        p.len() > 0,
        p[0] == CARET,
        anchor_kept(p, 1),
    ensures
        search(p, text) matches Some((s, e)) ==> s == 0,
{
    let b = Build::start();
    lemma_step_inv(p, b);
    let first = b.step(p).unwrap();
    lemma_run_guarded(p, first);
    if let Some(prog) = compiled(p) {
        lemma_anchored_match_begins_text(prog, text);
    }
}

/// A pattern that compiles, with `$` put behind it, matches only up to the
/// end of the text. (A `$` behind a pattern that ends in a lone backslash
/// is no anchor but a literal.)
pub proof fn lemma_dollar_ends_text(q: Seq<u8>, text: Seq<u8>)
    requires
        compiled(q) is Some,
    ensures
        search(q.push(DOLLAR), text) matches Some((s, e)) ==> e == text.len(),
{
    let p = q.push(DOLLAR);
    let b = Build::start();
    lemma_run_inv(q, b);
    lemma_run_prefix(q, DOLLAR, b);
    let mid = b.run(q).unwrap();
    if let Some(end) = mid.step(p) {
        assert(end.run(p) == Some(end));
        assert(compiled(p) == Some(end.prog));
        assert(end_anchored(end.prog, end.len)) by {
            assert forall|k: int| 0 <= k < end.len implies (#[trigger] end.prog.instrs[k])
                != RegexObj::Unused && Program::fits(
                end.prog.instrs[k],
                end.len - 1,
                MAX_CHAR_CLASS_LEN as int,
            ) by {
                if k < mid.len {
                    assert(end.prog.instrs[k] == mid.prog.instrs[k]);
                }
            }
        }
        lemma_end_anchored_match_ends_text(end.prog, text, end.len);
    }
}

} // verus!
