//! The matcher misses nothing that the automaton accepts, and reports the
//! match that begins first.

use vstd::prelude::*;
use crate::automaton::{accepted, entry, finishing_run, moves, reaches, runs};
use crate::compiler::{compiled, lemma_compiled_wf};
use crate::matcher::{
    advance, closure, first_finished, found, lemma_unseen_bound, lemma_unseen_enter, scan,
    search, sweep, unseen, Lanes, Strand, MAX_DEPTH, MAX_STATES,
};
use crate::program::{Program, RegexObj, MAX_CHAR_CLASS_LEN, MAX_REGEXP_OBJECTS};

verus! {

/// The instruction at `q` is no jump and no split: a thread stays there
/// until the next byte.
pub open spec fn terminal(prog: Program, q: int) -> bool {
    !(prog.instr_at(q) is Jmp) && !(prog.instr_at(q) is Split)
}

/// Some thread stands at `q`.
pub open spec fn has_strand(strands: Seq<Strand>, q: int) -> bool {
    exists|k: int| 0 <= k < strands.len() && (#[trigger] strands[k]).state == q
}

/// Some thread stands at `q` whose match begins at or before `s`.
pub open spec fn covered(strands: Seq<Strand>, q: int, s: int) -> bool {
    exists|k: int|
        0 <= k < strands.len() && (#[trigger] strands[k]).state == q && strands[k].start <= s
}

/// If `u` was entered, so was what follows it: the target of a jump, both
/// targets of a split, and at any other instruction a thread stands.
pub open spec fn settled(prog: Program, lanes: Lanes, u: int) -> bool {
    lanes.seen[u] ==> match prog.instr_at(u) {
        RegexObj::Jmp(to) => to < lanes.seen.len() && lanes.seen[to as int],
        RegexObj::Split(a, b) => a < lanes.seen.len() && lanes.seen[a as int] && b
            < lanes.seen.len() && lanes.seen[b as int],
        _ => has_strand(lanes.strands, u),
    }
}

/// Every state is settled but those in `pending`, which are being entered.
pub open spec fn settled_but(prog: Program, lanes: Lanes, pending: Set<int>) -> bool {
    forall|u: int|
        0 <= u < lanes.seen.len() && !pending.contains(u) ==> #[trigger] settled(prog, lanes, u)
}

/// `after` holds what `before` held, and behind it threads that begin at
/// `start`.
pub open spec fn extends(before: Lanes, after: Lanes, start: int) -> bool {
    &&& after.seen.len() == before.seen.len()
    &&& forall|u: int| 0 <= u < before.seen.len() && before.seen[u] ==> after.seen[u]
    &&& before.strands.len() <= after.strands.len()
    &&& forall|k: int|
        0 <= k < before.strands.len() ==> (#[trigger] after.strands[k]) == before.strands[k]
    &&& forall|k: int|
        before.strands.len() <= k < after.strands.len() ==> (#[trigger] after.strands[k]).start
            == start && 0 <= after.strands[k].state < after.seen.len()
}

proof fn lemma_settled_extends(prog: Program, before: Lanes, after: Lanes, start: int, u: int)
    requires
        extends(before, after, start),
        0 <= u < before.seen.len(),
        before.seen[u],
        settled(prog, before, u),
    ensures
        settled(prog, after, u),
{
    if terminal(prog, u) {
        let k = choose|k: int|
            0 <= k < before.strands.len() && (#[trigger] before.strands[k]).state == u;
        assert(after.strands[k].state == u);
    }
}

/// Letting a thread in enters its state and settles every state that it
/// enters on the way.
proof fn lemma_closure_settles(
    prog: Program,
    lanes: Lanes,
    t: Strand,
    at: int,
    depth: nat,
    pending: Set<int>,
)
    requires
        prog.wf(),
        lanes.seen.len() == MAX_STATES,
        depth > unseen(lanes.seen),
        0 <= t.state < MAX_STATES,
        settled_but(prog, lanes, pending),
    ensures
        extends(lanes, closure(prog, lanes, t, at, depth), t.start),
        closure(prog, lanes, t, at, depth).seen[t.state],
        settled_but(prog, closure(prog, lanes, t, at, depth), pending),
        unseen(closure(prog, lanes, t, at, depth).seen) <= unseen(lanes.seen),
    decreases depth,
{
    let q = t.state;
    let after = closure(prog, lanes, t, at, depth);
    if lanes.seen[q] {
    } else {
        let marked = Lanes { seen: lanes.seen.update(q, true), ..lanes };
        let deeper = (depth - 1) as nat;
        let waiting = pending.insert(q);
        lemma_unseen_enter(lanes.seen, q);
        assert(extends(lanes, marked, t.start));
        assert forall|u: int|
            0 <= u < marked.seen.len() && !waiting.contains(u) implies #[trigger] settled(
            prog,
            marked,
            u,
        ) by {
            if marked.seen[u] {
                assert(settled(prog, lanes, u));
                lemma_settled_extends(prog, lanes, marked, t.start, u);
            }
        }
        if q < prog.instrs.len() {
            assert(Program::fits(
                prog.instrs[q],
                MAX_REGEXP_OBJECTS as int,
                MAX_CHAR_CLASS_LEN as int,
            ));
        }
        match prog.instr_at(q) {
            RegexObj::Jmp(to) => {
                let u = Strand { state: to as int, ..t };
                lemma_closure_settles(prog, marked, u, at, deeper, waiting);
                assert(settled(prog, after, q));
            },
            RegexObj::Split(a, b) => {
                let u = Strand { state: a as int, ..t };
                let v = Strand { state: b as int, ..t };
                let left = closure(prog, marked, u, at, deeper);
                lemma_closure_settles(prog, marked, u, at, deeper, waiting);
                lemma_closure_settles(prog, left, v, at, deeper, waiting);
                assert(extends(lanes, after, t.start));
                assert(settled(prog, after, q));
            },
            _ => {
                let last = after.strands.len() - 1;
                assert(after.strands[last].state == q);
                assert(has_strand(after.strands, q));
                assert(extends(marked, after, t.start));
                assert forall|u: int|
                    0 <= u < after.seen.len() && !pending.contains(u) implies #[trigger] settled(
                    prog,
                    after,
                    u,
                ) by {
                    if u != q && after.seen[u] {
                        assert(settled(prog, marked, u));
                        lemma_settled_extends(prog, marked, after, t.start, u);
                    }
                }
            },
        }
        assert forall|u: int|
            0 <= u < after.seen.len() && !pending.contains(u) implies #[trigger] settled(
            prog,
            after,
            u,
        ) by {
            if u != q {
                assert(!waiting.contains(u));
            }
        }
    }
}

/// A match may begin at `s`: anywhere in an unanchored program, at the
/// start of the text in an anchored one.
pub open spec fn may_begin(prog: Program, s: int) -> bool {
    0 <= s && (prog.instr_at(0) == RegexObj::Begin ==> s == 0)
}

/// A thread at `q`, at offset `e`, has matched.
pub open spec fn finishes(prog: Program, text: Seq<u8>, q: int, e: int) -> bool {
    prog.instr_at(q) == RegexObj::Unused || (prog.instr_at(q) == RegexObj::End && e == text.len())
}

proof fn lemma_run_bounds(prog: Program, text: Seq<u8>, q0: int, s: int, q: int, j: int, n: nat)
    requires
        prog.wf(),
        0 <= q0 < MAX_STATES,
        reaches(prog, text, q0, s, q, j, n),
    ensures
        0 <= q < MAX_STATES,
        s <= j,
        s <= text.len() ==> j <= text.len(),
    decreases n,
{
    if n > 0 {
        let (m, k) = choose|m: int, k: int|
            #![trigger moves(prog, text, m, k, q, j)]
            reaches(prog, text, q0, s, m, k, (n - 1) as nat) && moves(prog, text, m, k, q, j);
        lemma_run_bounds(prog, text, q0, s, m, k, (n - 1) as nat);
        if m < prog.instrs.len() {
            assert(Program::fits(
                prog.instrs[m],
                MAX_REGEXP_OBJECTS as int,
                MAX_CHAR_CLASS_LEN as int,
            ));
        }
    }
}

/// A run that is at or behind offset `i` when it ends has stood at some
/// instruction other than a jump or split at offset `i`.
proof fn lemma_run_crosses(
    prog: Program,
    text: Seq<u8>,
    q0: int,
    s: int,
    q: int,
    e: int,
    n: nat,
    i: int,
) -> (r: (int, nat))
    requires
        prog.wf(),
        0 <= q0 < MAX_STATES,
        reaches(prog, text, q0, s, q, e, n),
        s <= i,
        i < e || (i == e && terminal(prog, q)),
    ensures
        reaches(prog, text, q0, s, r.0, i, r.1),
        terminal(prog, r.0),
    decreases n,
{
    if i == e {
        (q, n)
    } else {
        let (m, k) = choose|m: int, k: int|
            #![trigger moves(prog, text, m, k, q, e)]
            reaches(prog, text, q0, s, m, k, (n - 1) as nat) && moves(prog, text, m, k, q, e);
        lemma_run_bounds(prog, text, q0, s, m, k, (n - 1) as nat);
        lemma_run_crosses(prog, text, q0, s, m, k, (n - 1) as nat, i)
    }
}

/// A run that consumes nothing can be made at any offset.
proof fn lemma_run_shifts(prog: Program, text: Seq<u8>, q0: int, s: int, q: int, n: nat, i: int)
    requires
        prog.wf(),
        0 <= q0 < MAX_STATES,
        reaches(prog, text, q0, s, q, s, n),
    ensures
        reaches(prog, text, q0, i, q, i, n),
    decreases n,
{
    if n > 0 {
        let (m, k) = choose|m: int, k: int|
            #![trigger moves(prog, text, m, k, q, s)]
            reaches(prog, text, q0, s, m, k, (n - 1) as nat) && moves(prog, text, m, k, q, s);
        lemma_run_bounds(prog, text, q0, s, m, k, (n - 1) as nat);
        lemma_run_shifts(prog, text, q0, s, m, (n - 1) as nat, i);
        assert(moves(prog, text, m, i, q, i));
    }
}

/// The threads are in the order in which their matches begin.
pub open spec fn sorted(strands: Seq<Strand>) -> bool {
    forall|a: int, b: int|
        0 <= a <= b < strands.len() ==> (#[trigger] strands[a]).start <= (
        #[trigger] strands[b]).start
}

/// No thread's match begins behind `bound`.
pub open spec fn below(strands: Seq<Strand>, bound: int) -> bool {
    forall|k: int| 0 <= k < strands.len() ==> (#[trigger] strands[k]).start <= bound
}

/// Every thread stands at a state.
pub open spec fn in_range(strands: Seq<Strand>) -> bool {
    forall|k: int| 0 <= k < strands.len() ==> 0 <= (#[trigger] strands[k]).state < MAX_STATES
}

/// The lanes of a step between two threads: every state that was entered
/// is settled, and the threads are in order.
pub open spec fn tidy(prog: Program, lanes: Lanes) -> bool {
    &&& lanes.seen.len() == MAX_STATES
    &&& settled_but(prog, lanes, Set::empty())
    &&& sorted(lanes.strands)
    &&& in_range(lanes.strands)
}

/// The next step's lanes after the first `k` threads of `cur` have met the
/// byte `c`.
pub open spec fn swept(prog: Program, cur: Seq<Strand>, k: int, c: u8, at: int) -> Lanes
    decreases k,
{
    if k <= 0 {
        Lanes::empty()
    } else {
        advance(prog, swept(prog, cur, k - 1, c, at), cur[k - 1], c, at)
    }
}

proof fn lemma_sweep_is_swept(prog: Program, cur: Seq<Strand>, k: int, c: u8, at: int)
    requires
        0 <= k <= cur.len(),
    ensures
        sweep(prog, cur, k, swept(prog, cur, k, c, at), c, at) == swept(
            prog,
            cur,
            cur.len() as int,
            c,
            at,
        ),
    decreases cur.len() - k,
{
    if k < cur.len() {
        lemma_sweep_is_swept(prog, cur, k + 1, c, at);
    }
}

proof fn lemma_enter_tidy(prog: Program, lanes: Lanes, t: Strand, at: int)
    requires
        prog.wf(),
        tidy(prog, lanes),
        below(lanes.strands, t.start),
        0 <= t.state < MAX_STATES,
    ensures
        tidy(prog, closure(prog, lanes, t, at, MAX_DEPTH as nat)),
        below(closure(prog, lanes, t, at, MAX_DEPTH as nat).strands, t.start),
        extends(lanes, closure(prog, lanes, t, at, MAX_DEPTH as nat), t.start),
        closure(prog, lanes, t, at, MAX_DEPTH as nat).seen[t.state],
{
    lemma_unseen_bound(lanes.seen);
    lemma_closure_settles(prog, lanes, t, at, MAX_DEPTH as nat, Set::empty());
}

proof fn lemma_advance_tidy(prog: Program, lanes: Lanes, t: Strand, c: u8, at: int)
    requires
        prog.wf(),
        tidy(prog, lanes),
        below(lanes.strands, t.start),
        0 <= t.state < MAX_STATES,
    ensures
        tidy(prog, advance(prog, lanes, t, c, at)),
        below(advance(prog, lanes, t, c, at).strands, t.start),
        extends(lanes, advance(prog, lanes, t, c, at), t.start),
        prog.instr_at(t.state) == RegexObj::Unused ==> advance(prog, lanes, t, c, at).seen[t.state],
        prog.accepts(prog.instr_at(t.state), c) ==> t.state + 1 < MAX_STATES && advance(
            prog,
            lanes,
            t,
            c,
            at,
        ).seen[t.state + 1],
{
    let obj = prog.instr_at(t.state);
    if obj == RegexObj::Unused {
        lemma_enter_tidy(prog, lanes, t, at + 1);
    } else if prog.accepts(obj, c) {
        lemma_enter_tidy(prog, lanes, Strand { state: t.state + 1, ..t }, at + 1);
    }
}

/// What the lanes hold after `k` threads holds on: states stay entered and
/// threads keep their rank.
pub open spec fn grows(before: Lanes, after: Lanes) -> bool {
    &&& after.seen.len() == before.seen.len()
    &&& forall|u: int| 0 <= u < before.seen.len() && before.seen[u] ==> after.seen[u]
    &&& before.strands.len() <= after.strands.len()
    &&& forall|k: int|
        0 <= k < before.strands.len() ==> (#[trigger] after.strands[k]) == before.strands[k]
}

proof fn lemma_swept_tidy(prog: Program, cur: Seq<Strand>, k: int, c: u8, at: int)
    requires
        prog.wf(),
        sorted(cur),
        in_range(cur),
        0 <= k <= cur.len(),
    ensures
        tidy(prog, swept(prog, cur, k, c, at)),
        k > 0 ==> below(swept(prog, cur, k, c, at).strands, cur[k - 1].start),
        k == 0 ==> swept(prog, cur, k, c, at).strands.len() == 0,
        k > 0 ==> extends(
            swept(prog, cur, k - 1, c, at),
            swept(prog, cur, k, c, at),
            cur[k - 1].start,
        ),
        k > 0 && prog.instr_at(cur[k - 1].state) == RegexObj::Unused ==> swept(
            prog,
            cur,
            k,
            c,
            at,
        ).seen[cur[k - 1].state],
        k > 0 && prog.accepts(prog.instr_at(cur[k - 1].state), c) ==> cur[k - 1].state + 1
            < MAX_STATES && swept(prog, cur, k, c, at).seen[cur[k - 1].state + 1],
    decreases k,
{
    if k > 0 {
        lemma_swept_tidy(prog, cur, k - 1, c, at);
        let before = swept(prog, cur, k - 1, c, at);
        assert(below(before.strands, cur[k - 1].start)) by {
            if k > 1 {
                assert(cur[k - 2].start <= cur[k - 1].start);
            }
        }
        lemma_advance_tidy(prog, before, cur[k - 1], c, at);
    } else {
        assert(forall|u: int| 0 <= u < MAX_STATES ==> !Lanes::empty().seen[u]);
    }
}

proof fn lemma_swept_grows(prog: Program, cur: Seq<Strand>, k: int, last: int, c: u8, at: int)
    requires
        prog.wf(),
        sorted(cur),
        in_range(cur),
        0 <= k <= last <= cur.len(),
    ensures
        grows(swept(prog, cur, k, c, at), swept(prog, cur, last, c, at)),
    decreases last - k,
{
    if k < last {
        lemma_swept_grows(prog, cur, k, last - 1, c, at);
        lemma_swept_tidy(prog, cur, last, c, at);
    }
}

/// The threads `cur` at offset `i` stand for every run that a match may
/// begin with: for each instruction, other than a jump or split, at which
/// such a run stands at offset `i`, and for each `Unused` at which one
/// arrived before, a thread stands there that began no later.
pub open spec fn complete_at(prog: Program, text: Seq<u8>, i: int, cur: Seq<Strand>) -> bool {
    &&& sorted(cur)
    &&& in_range(cur)
    &&& below(cur, i)
    &&& forall|s: int, q: int, j: int, n: nat|
        #[trigger] reaches(prog, text, entry(prog), s, q, j, n) && may_begin(prog, s) && j <= i
            && terminal(prog, q) && (j == i || prog.instr_at(q) == RegexObj::Unused) ==> covered(
            cur,
            q,
            s,
        )
}

/// The lanes of offset `i + 1`, made from the threads `cur` of offset `i`.
pub open spec fn next_lanes(prog: Program, text: Seq<u8>, i: int, cur: Seq<Strand>) -> Lanes {
    let stepped = sweep(prog, cur, 0, Lanes::empty(), text[i], i);
    if prog.instr_at(0) == RegexObj::Begin {
        stepped
    } else {
        closure(
            prog,
            stepped,
            Strand { state: 0, start: i + 1, end: None },
            i + 1,
            MAX_DEPTH as nat,
        )
    }
}

/// The state `q` was entered on behalf of a thread that began at or before
/// `s`: one of `cur`, or the new thread of offset `i + 1`.
pub open spec fn reached_by(
    prog: Program,
    text: Seq<u8>,
    i: int,
    cur: Seq<Strand>,
    q: int,
    s: int,
) -> bool {
    ||| exists|k: int|
        1 <= k <= cur.len() && cur[k - 1].start <= s && (#[trigger] swept(
            prog,
            cur,
            k,
            text[i],
            i,
        )).seen[q]
    ||| (prog.instr_at(0) != RegexObj::Begin && s > i && next_lanes(prog, text, i, cur).seen[q])
}

proof fn lemma_next_tidy(prog: Program, text: Seq<u8>, i: int, cur: Seq<Strand>)
    requires
        prog.wf(),
        0 <= i < text.len(),
        sorted(cur),
        in_range(cur),
        below(cur, i),
    ensures
        tidy(prog, next_lanes(prog, text, i, cur)),
        below(next_lanes(prog, text, i, cur).strands, i + 1),
        grows(swept(prog, cur, cur.len() as int, text[i], i), next_lanes(prog, text, i, cur)),
        prog.instr_at(0) != RegexObj::Begin ==> next_lanes(prog, text, i, cur).seen[0],
{
    let c = text[i];
    let all = swept(prog, cur, cur.len() as int, c, i);
    lemma_sweep_is_swept(prog, cur, 0, c, i);
    lemma_swept_tidy(prog, cur, cur.len() as int, c, i);
    assert(below(all.strands, i + 1)) by {
        if cur.len() > 0 {
            assert(cur[cur.len() - 1].start <= i);
        }
    }
    if prog.instr_at(0) != RegexObj::Begin {
        lemma_enter_tidy(prog, all, Strand { state: 0, start: i + 1, end: None }, i + 1);
    }
}

proof fn lemma_next_reached(
    prog: Program,
    text: Seq<u8>,
    i: int,
    cur: Seq<Strand>,
    s: int,
    q: int,
    n: nat,
)
    requires
        prog.wf(),
        0 <= i < text.len(),
        complete_at(prog, text, i, cur),
        may_begin(prog, s),
        reaches(prog, text, entry(prog), s, q, i + 1, n),
    ensures
        0 <= q < MAX_STATES,
        reached_by(prog, text, i, cur, q, s),
    decreases n,
{
    let c = text[i];
    let fin = next_lanes(prog, text, i, cur);
    lemma_run_bounds(prog, text, entry(prog), s, q, i + 1, n);
    lemma_next_tidy(prog, text, i, cur);
    if n == 0 {
        assert(fin.seen[q]);
    } else {
        let (m, k) = choose|m: int, k: int|
            #![trigger moves(prog, text, m, k, q, i + 1)]
            reaches(prog, text, entry(prog), s, m, k, (n - 1) as nat) && moves(
                prog,
                text,
                m,
                k,
                q,
                i + 1,
            );
        lemma_run_bounds(prog, text, entry(prog), s, m, k, (n - 1) as nat);
        if k == i + 1 {
            lemma_next_reached(prog, text, i, cur, s, m, (n - 1) as nat);
            if exists|w: int|
                1 <= w <= cur.len() && cur[w - 1].start <= s && (#[trigger] swept(
                    prog,
                    cur,
                    w,
                    c,
                    i,
                )).seen[m] {
                let w = choose|w: int|
                    1 <= w <= cur.len() && cur[w - 1].start <= s && (#[trigger] swept(
                        prog,
                        cur,
                        w,
                        c,
                        i,
                    )).seen[m];
                lemma_swept_tidy(prog, cur, w, c, i);
                assert(settled(prog, swept(prog, cur, w, c, i), m));
                assert(swept(prog, cur, w, c, i).seen[q]);
            } else {
                assert(settled(prog, fin, m));
                assert(fin.seen[q]);
            }
        } else {
            assert(terminal(prog, m));
            assert(covered(cur, m, s));
            let w = choose|w: int|
                0 <= w < cur.len() && (#[trigger] cur[w]).state == m && cur[w].start <= s;
            lemma_swept_tidy(prog, cur, w + 1, c, i);
            assert(swept(prog, cur, w + 1, c, i).seen[q]);
        }
    }
}

proof fn lemma_kept_reached(
    prog: Program,
    text: Seq<u8>,
    i: int,
    cur: Seq<Strand>,
    s: int,
    q: int,
    j: int,
    n: nat,
)
    requires
        prog.wf(),
        0 <= i < text.len(),
        complete_at(prog, text, i, cur),
        may_begin(prog, s),
        reaches(prog, text, entry(prog), s, q, j, n),
        j <= i,
        prog.instr_at(q) == RegexObj::Unused,
    ensures
        0 <= q < MAX_STATES,
        reached_by(prog, text, i, cur, q, s),
{
    let c = text[i];
    lemma_run_bounds(prog, text, entry(prog), s, q, j, n);
    assert(covered(cur, q, s));
    let w = choose|w: int|
        0 <= w < cur.len() && (#[trigger] cur[w]).state == q && cur[w].start <= s;
    lemma_swept_tidy(prog, cur, w + 1, c, i);
    assert(swept(prog, cur, w + 1, c, i).seen[q]);
}

proof fn lemma_reached_covered(
    prog: Program,
    text: Seq<u8>,
    i: int,
    cur: Seq<Strand>,
    s: int,
    q: int,
)
    requires
        prog.wf(),
        0 <= i < text.len(),
        sorted(cur),
        in_range(cur),
        below(cur, i),
        0 <= q < MAX_STATES,
        terminal(prog, q),
        reached_by(prog, text, i, cur, q, s),
    ensures
        covered(next_lanes(prog, text, i, cur).strands, q, s),
{
    let c = text[i];
    let fin = next_lanes(prog, text, i, cur);
    lemma_next_tidy(prog, text, i, cur);
    if exists|w: int|
        1 <= w <= cur.len() && cur[w - 1].start <= s && (#[trigger] swept(prog, cur, w, c, i)).seen[q] {
        let w = choose|w: int|
            1 <= w <= cur.len() && cur[w - 1].start <= s && (#[trigger] swept(
                prog,
                cur,
                w,
                c,
                i,
            )).seen[q];
        let part = swept(prog, cur, w, c, i);
        lemma_swept_tidy(prog, cur, w, c, i);
        lemma_swept_grows(prog, cur, w, cur.len() as int, c, i);
        assert(settled(prog, part, q));
        let k = choose|k: int| 0 <= k < part.strands.len() && (#[trigger] part.strands[k]).state == q;
        assert(part.strands[k].start <= cur[w - 1].start);
        assert(swept(prog, cur, cur.len() as int, c, i).strands[k] == part.strands[k]);
        assert(fin.strands[k] == part.strands[k]);
    } else {
        assert(settled(prog, fin, q));
        let k = choose|k: int| 0 <= k < fin.strands.len() && (#[trigger] fin.strands[k]).state == q;
        assert(fin.strands[k].start <= i + 1);
    }
}

/// If the threads of offset `i` miss nothing, those of offset `i + 1` miss
/// nothing.
proof fn lemma_step_complete(prog: Program, text: Seq<u8>, i: int, cur: Seq<Strand>)
    requires
        prog.wf(),
        0 <= i < text.len(),
        complete_at(prog, text, i, cur),
    ensures
        complete_at(prog, text, i + 1, next_lanes(prog, text, i, cur).strands),
{
    let fin = next_lanes(prog, text, i, cur);
    lemma_next_tidy(prog, text, i, cur);
    assert forall|s: int, q: int, j: int, n: nat|
        #[trigger] reaches(prog, text, entry(prog), s, q, j, n) && may_begin(prog, s) && j <= i + 1
            && terminal(prog, q) && (j == i + 1 || prog.instr_at(q)
            == RegexObj::Unused) implies covered(fin.strands, q, s) by {
        if j == i + 1 {
            lemma_next_reached(prog, text, i, cur, s, q, n);
        } else {
            lemma_kept_reached(prog, text, i, cur, s, q, j, n);
        }
        lemma_reached_covered(prog, text, i, cur, s, q);
    }
}

proof fn lemma_first_entered(prog: Program, text: Seq<u8>, q: int, n: nat)
    requires
        prog.wf(),
        reaches(prog, text, entry(prog), 0, q, 0, n),
    ensures
        0 <= q < MAX_STATES,
        closure(
            prog,
            Lanes::empty(),
            Strand { state: entry(prog), start: 0, end: None },
            0,
            MAX_DEPTH as nat,
        ).seen[q],
    decreases n,
{
    let first = Strand { state: entry(prog), start: 0, end: None };
    let lanes = closure(prog, Lanes::empty(), first, 0, MAX_DEPTH as nat);
    assert(forall|u: int| 0 <= u < MAX_STATES ==> !Lanes::empty().seen[u]);
    lemma_enter_tidy(prog, Lanes::empty(), first, 0);
    lemma_run_bounds(prog, text, entry(prog), 0, q, 0, n);
    if n > 0 {
        let (m, k) = choose|m: int, k: int|
            #![trigger moves(prog, text, m, k, q, 0)]
            reaches(prog, text, entry(prog), 0, m, k, (n - 1) as nat) && moves(
                prog,
                text,
                m,
                k,
                q,
                0,
            );
        lemma_run_bounds(prog, text, entry(prog), 0, m, k, (n - 1) as nat);
        lemma_first_entered(prog, text, m, (n - 1) as nat);
        assert(settled(prog, lanes, m));
    }
}

/// The threads with which the matcher sets out miss nothing.
proof fn lemma_first_complete(prog: Program, text: Seq<u8>)
    requires
        prog.wf(),
    ensures
        complete_at(
            prog,
            text,
            0,
            closure(
                prog,
                Lanes::empty(),
                Strand { state: entry(prog), start: 0, end: None },
                0,
                MAX_DEPTH as nat,
            ).strands,
        ),
{
    let first = Strand { state: entry(prog), start: 0, end: None };
    let lanes = closure(prog, Lanes::empty(), first, 0, MAX_DEPTH as nat);
    assert(forall|u: int| 0 <= u < MAX_STATES ==> !Lanes::empty().seen[u]);
    lemma_enter_tidy(prog, Lanes::empty(), first, 0);
    assert forall|s: int, q: int, j: int, n: nat|
        #[trigger] reaches(prog, text, entry(prog), s, q, j, n) && may_begin(prog, s) && j <= 0
            && terminal(prog, q) && (j == 0 || prog.instr_at(q)
            == RegexObj::Unused) implies covered(lanes.strands, q, s) by {
        lemma_run_bounds(prog, text, entry(prog), s, q, j, n);
        lemma_first_entered(prog, text, q, n);
        assert(settled(prog, lanes, q));
        let k = choose|k: int|
            0 <= k < lanes.strands.len() && (#[trigger] lanes.strands[k]).state == q;
        assert(lanes.strands[k].start <= 0);
    }
}

/// Where the automaton accepts a span that a match may begin with, some
/// thread at offset `i` began no later; at the text's end it has matched.
proof fn lemma_some_thread(
    prog: Program,
    text: Seq<u8>,
    i: int,
    cur: Seq<Strand>,
    s2: int,
    q2: int,
    e2: int,
    n2: nat,
) -> (k: int)
    requires
        prog.wf(),
        0 <= i <= text.len(),
        complete_at(prog, text, i, cur),
        may_begin(prog, s2),
        s2 <= text.len(),
        reaches(prog, text, entry(prog), s2, q2, e2, n2),
        finishes(prog, text, q2, e2),
    ensures
        0 <= k < cur.len(),
        cur[k].start <= s2,
        i == text.len() ==> prog.instr_at(cur[k].state) == RegexObj::Unused || prog.instr_at(
            cur[k].state,
        ) == RegexObj::End,
{
    lemma_run_bounds(prog, text, entry(prog), s2, q2, e2, n2);
    if s2 <= i {
        if e2 <= i {
            assert(covered(cur, q2, s2));
            choose|k: int|
                0 <= k < cur.len() && (#[trigger] cur[k]).state == q2 && cur[k].start <= s2
        } else {
            let (m, n) = lemma_run_crosses(prog, text, entry(prog), s2, q2, e2, n2, i);
            assert(covered(cur, m, s2));
            choose|k: int|
                0 <= k < cur.len() && (#[trigger] cur[k]).state == m && cur[k].start <= s2
        }
    } else {
        let (m, n) = lemma_run_crosses(prog, text, entry(prog), s2, q2, e2, n2, s2);
        lemma_run_shifts(prog, text, entry(prog), s2, m, n, i);
        assert(reaches(prog, text, entry(prog), i, m, i, n));
        assert(covered(cur, m, i));
        choose|k: int| 0 <= k < cur.len() && (#[trigger] cur[k]).state == m && cur[k].start <= i
    }
}

proof fn lemma_first_finished_leftmost(
    prog: Program,
    cur: Seq<Strand>,
    from: int,
    k: int,
    len: int,
)
    requires
        sorted(cur),
        0 <= from <= k < cur.len(),
        prog.instr_at(cur[k].state) == RegexObj::Unused || prog.instr_at(cur[k].state)
            == RegexObj::End,
    ensures
        first_finished(prog, cur, from, len) matches Some((s, e)) && s <= cur[k].start,
    decreases k - from,
{
    let obj = prog.instr_at(cur[from].state);
    if obj == RegexObj::Unused || obj == RegexObj::End {
        assert(cur[from].start <= cur[k].start);
    } else {
        lemma_first_finished_leftmost(prog, cur, from + 1, k, len);
    }
}

proof fn lemma_scan_leftmost(
    prog: Program,
    text: Seq<u8>,
    i: int,
    cur: Seq<Strand>,
    s2: int,
    q2: int,
    e2: int,
    n2: nat,
)
    requires
        prog.wf(),
        0 <= i <= text.len(),
        complete_at(prog, text, i, cur),
        may_begin(prog, s2),
        s2 <= text.len(),
        reaches(prog, text, entry(prog), s2, q2, e2, n2),
        finishes(prog, text, q2, e2),
    ensures
        scan(prog, text, i, cur, prog.instr_at(0) == RegexObj::Begin) matches Some((s, e)) && s
            <= s2,
    decreases text.len() - i,
{
    let k = lemma_some_thread(prog, text, i, cur, s2, q2, e2, n2);
    if i >= text.len() {
        lemma_first_finished_leftmost(prog, cur, 0, k, text.len() as int);
    } else if prog.instr_at(cur[0].state) == RegexObj::Unused {
        assert(cur[0].start <= cur[k].start);
    } else {
        lemma_step_complete(prog, text, i, cur);
        lemma_scan_leftmost(
            prog,
            text,
            i + 1,
            next_lanes(prog, text, i, cur).strands,
            s2,
            q2,
            e2,
            n2,
        );
    }
}

/// The matcher finds the leftmost match. Where the automaton accepts a span
/// of the text, the matcher reports a match, and one that begins no later.
/// So it reports none only where the automaton accepts no span.
pub proof fn lemma_match_is_leftmost(prog: Program, text: Seq<u8>, s2: int, e2: int)
    requires
        prog.wf(),
        0 <= s2 <= text.len(),
        accepted(prog, text, s2, e2),
    ensures
        found(prog, text) matches Some((s, e)) && s <= s2,
{
    assert(finishing_run(prog, text, s2, e2));
    let q2 = choose|q: int| #[trigger]
        runs(prog, text, entry(prog), s2, q, e2) && (prog.instr_at(q) == RegexObj::Unused || (
        prog.instr_at(q) == RegexObj::End && e2 == text.len()));
    let n2 = choose|n: nat| reaches(prog, text, entry(prog), s2, q2, e2, n);
    let first = Strand { state: entry(prog), start: 0, end: None };
    lemma_first_complete(prog, text);
    lemma_scan_leftmost(
        prog,
        text,
        0,
        closure(prog, Lanes::empty(), first, 0, MAX_DEPTH as nat).strands,
        s2,
        q2,
        e2,
        n2,
    );
}

/// A pattern's match is the leftmost that its program accepts.
pub proof fn lemma_search_is_leftmost(p: Seq<u8>, text: Seq<u8>, s2: int, e2: int)
    requires
        compiled(p) matches Some(prog) && accepted(prog, text, s2, e2),
        0 <= s2 <= text.len(),
    ensures
        search(p, text) matches Some((s, e)) && s <= s2,
{
    lemma_compiled_wf(p);
    lemma_match_is_leftmost(compiled(p).unwrap(), text, s2, e2);
}

} // verus!
