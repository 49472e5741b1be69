//! The matcher: a program run against a text as a nondeterministic
//! automaton, all threads side by side, one text byte at a time.

use vstd::prelude::*;
use vstd::slice::slice_subrange;
use crate::compiler::compiled;
use crate::laws::lemma_match_within_text;
use crate::program::{Program, Regex, RegexObj, MAX_REGEXP_OBJECTS};

verus! {

/// The states a thread can be in: one per instruction slot, and the one past
/// the last slot.
pub const MAX_STATES: usize = MAX_REGEXP_OBJECTS + 1;

/// How deep a chain of jumps and splits is followed. With every state
/// entered once per step, no chain is longer than the number of states.
pub const MAX_DEPTH: usize = MAX_STATES + 1;

/// One thread of the simulation, over mathematical integers.
pub struct Strand {
    /// The instruction the thread stands at.
    pub state: int,
    /// The text offset at which its match begins.
    pub start: int,
    /// The text offset at which its match ended, once it has.
    pub end: Option<int>,
}

impl Strand {
    /// Where the thread's match ends if it is taken at offset `at`.
    pub open spec fn finish(self, at: int) -> int {
        match self.end {
            Some(e) => e,
            None => at,
        }
    }
}

/// The threads of one step, the preferred ones first, and the states that
/// were entered in this step.
#[verifier::ext_equal]
pub struct Lanes {
    pub strands: Seq<Strand>,
    pub seen: Seq<bool>,
}

impl Lanes {
    /// No thread, no state entered.
    pub open spec fn empty() -> Lanes {
        Lanes { strands: Seq::empty(), seen: Seq::new(MAX_STATES as nat, |k: int| false) }
    }
}

/// The threads after `t` has been let into `lanes` at text offset `at`. A
/// state that was entered before in this step is not entered again, so the
/// thread that came first keeps it. A jump is followed, a split is followed
/// first to its first target and then to its second, and at any other
/// instruction the thread is added behind those already there. A thread that
/// arrives at `Unused` has matched, and ends at `at` unless it ended before.
pub open spec fn closure(prog: Program, lanes: Lanes, t: Strand, at: int, depth: nat) -> Lanes
    decreases depth,
{
    if depth == 0 || t.state < 0 || t.state >= lanes.seen.len() || lanes.seen[t.state] {
        lanes
    } else {
        let marked = Lanes { seen: lanes.seen.update(t.state, true), ..lanes };
        let deeper = (depth - 1) as nat;
        match prog.instr_at(t.state) {
            RegexObj::Jmp(to) => closure(prog, marked, Strand { state: to as int, ..t }, at, deeper),
            RegexObj::Split(a, b) => closure(
                prog,
                closure(prog, marked, Strand { state: a as int, ..t }, at, deeper),
                Strand { state: b as int, ..t },
                at,
                deeper,
            ),
            RegexObj::Unused => Lanes {
                strands: marked.strands.push(Strand { end: Some(t.finish(at)), ..t }),
                ..marked
            },
            _ => Lanes { strands: marked.strands.push(Strand { end: None, ..t }), ..marked },
        }
    }
}

/// The next step's threads after the thread `t` has met the byte `c` at text
/// offset `at`. A thread that has matched stays as it is; one whose
/// instruction consumes `c` moves to the next slot; any other is dropped.
pub open spec fn advance(prog: Program, next: Lanes, t: Strand, c: u8, at: int) -> Lanes {
    let obj = prog.instr_at(t.state);
    if obj == RegexObj::Unused {
        closure(prog, next, t, at + 1, MAX_DEPTH as nat)
    } else if prog.accepts(obj, c) {
        closure(prog, next, Strand { state: t.state + 1, ..t }, at + 1, MAX_DEPTH as nat)
    } else {
        next
    }
}

/// The next step's threads after the threads of `cur` from index `k` on have
/// met the byte `c`, in their order.
pub open spec fn sweep(prog: Program, cur: Seq<Strand>, k: int, next: Lanes, c: u8, at: int) -> Lanes
    decreases cur.len() - k,
{
    if k < 0 || k >= cur.len() {
        next
    } else {
        sweep(prog, cur, k + 1, advance(prog, next, cur[k], c, at), c, at)
    }
}

/// The first thread of `cur`, from index `k` on, that stands at `Unused` or
/// at `End` when the text of length `len` is used up: its match.
pub open spec fn first_finished(prog: Program, cur: Seq<Strand>, k: int, len: int) -> Option<
    (int, int),
>
    decreases cur.len() - k,
{
    if k < 0 || k >= cur.len() {
        None
    } else {
        let obj = prog.instr_at(cur[k].state);
        if obj == RegexObj::Unused || obj == RegexObj::End {
            Some((cur[k].start, cur[k].finish(len)))
        } else {
            first_finished(prog, cur, k + 1, len)
        }
    }
}

/// The match found from text offset `i` on, with the threads `cur` alive
/// there. Before each byte: with no thread left there is no match, and if
/// the preferred thread has matched, its match is the result. Otherwise
/// every thread meets the byte and, unless the program is anchored, a new
/// thread that begins behind the byte joins last.
pub open spec fn scan(prog: Program, text: Seq<u8>, i: int, cur: Seq<Strand>, anchored: bool) -> Option<
    (int, int),
>
    decreases text.len() - i,
{
    if i < 0 || i >= text.len() {
        first_finished(prog, cur, 0, text.len() as int)
    } else if cur.len() == 0 {
        None
    } else if prog.instr_at(cur[0].state) == RegexObj::Unused {
        Some((cur[0].start, cur[0].finish(i)))
    } else {
        let stepped = sweep(prog, cur, 0, Lanes::empty(), text[i], i);
        let next = if anchored {
            stepped
        } else {
            closure(
                prog,
                stepped,
                Strand { state: 0, start: i + 1, end: None },
                i + 1,
                MAX_DEPTH as nat,
            )
        };
        scan(prog, text, i + 1, next.strands, anchored)
    }
}

/// The first match of `prog` in `text`, as the offsets at which it begins
/// and ends. A program whose slot 0 holds `Begin` is anchored: it starts
/// behind that slot and only at offset 0.
pub open spec fn found(prog: Program, text: Seq<u8>) -> Option<(int, int)> {
    let anchored = prog.instr_at(0) == RegexObj::Begin;
    let first = Strand { state: if anchored { 1 } else { 0 }, start: 0, end: None };
    scan(prog, text, 0, closure(prog, Lanes::empty(), first, 0, MAX_DEPTH as nat).strands, anchored)
}

/// The first match of the pattern `p` in `text`; none where `p` does not
/// compile.
pub open spec fn search(p: Seq<u8>, text: Seq<u8>) -> Option<(int, int)> {
    match compiled(p) {
        None => None,
        Some(prog) => found(prog, text),
    }
}

/// How many states have not been entered.
pub open spec fn unseen(seen: Seq<bool>) -> nat
    decreases seen.len(),
{
    if seen.len() == 0 {
        0
    } else {
        unseen(seen.drop_last()) + if seen.last() { 0nat } else { 1nat }
    }
}

pub proof fn lemma_unseen_bound(seen: Seq<bool>)
    ensures
        unseen(seen) <= seen.len(),
    decreases seen.len(),
{
    if seen.len() > 0 {
        lemma_unseen_bound(seen.drop_last());
    }
}

pub proof fn lemma_unseen_enter(seen: Seq<bool>, k: int)
    requires
        0 <= k < seen.len(),
        !seen[k],
    ensures
        unseen(seen.update(k, true)) + 1 == unseen(seen),
    decreases seen.len(),
{
    let after = seen.update(k, true);
    if k == seen.len() - 1 {
        assert(after.drop_last() =~= seen.drop_last());
    } else {
        lemma_unseen_enter(seen.drop_last(), k);
        assert(after.drop_last() =~= seen.drop_last().update(k, true));
    }
}

/// Letting a thread in enters states and leaves none.
pub proof fn lemma_closure_enters(prog: Program, lanes: Lanes, t: Strand, at: int, depth: nat)
    ensures
        closure(prog, lanes, t, at, depth).seen.len() == lanes.seen.len(),
        unseen(closure(prog, lanes, t, at, depth).seen) <= unseen(lanes.seen),
    decreases depth,
{
    if depth == 0 || t.state < 0 || t.state >= lanes.seen.len() || lanes.seen[t.state] {
    } else {
        let marked = Lanes { seen: lanes.seen.update(t.state, true), ..lanes };
        let deeper = (depth - 1) as nat;
        lemma_unseen_enter(lanes.seen, t.state);
        match prog.instr_at(t.state) {
            RegexObj::Jmp(to) => {
                lemma_closure_enters(prog, marked, Strand { state: to as int, ..t }, at, deeper);
            },
            RegexObj::Split(a, b) => {
                let left = closure(prog, marked, Strand { state: a as int, ..t }, at, deeper);
                lemma_closure_enters(prog, marked, Strand { state: a as int, ..t }, at, deeper);
                lemma_closure_enters(prog, left, Strand { state: b as int, ..t }, at, deeper);
            },
            _ => {},
        }
    }
}

/// A depth above the number of states not yet entered is never used up:
/// every such depth gives the same threads.
pub proof fn lemma_closure_depth(
    prog: Program,
    lanes: Lanes,
    t: Strand,
    at: int,
    d1: nat,
    d2: nat,
)
    requires
        d1 > unseen(lanes.seen),
        d2 > unseen(lanes.seen),
    ensures
        closure(prog, lanes, t, at, d1) == closure(prog, lanes, t, at, d2),
    decreases d1,
{
    if t.state < 0 || t.state >= lanes.seen.len() || lanes.seen[t.state] {
    } else {
        let marked = Lanes { seen: lanes.seen.update(t.state, true), ..lanes };
        lemma_unseen_enter(lanes.seen, t.state);
        let e1 = (d1 - 1) as nat;
        let e2 = (d2 - 1) as nat;
        match prog.instr_at(t.state) {
            RegexObj::Jmp(to) => {
                lemma_closure_depth(prog, marked, Strand { state: to as int, ..t }, at, e1, e2);
            },
            RegexObj::Split(a, b) => {
                let left = closure(prog, marked, Strand { state: a as int, ..t }, at, e1);
                lemma_closure_depth(prog, marked, Strand { state: a as int, ..t }, at, e1, e2);
                lemma_closure_enters(prog, marked, Strand { state: a as int, ..t }, at, e1);
                lemma_closure_depth(prog, left, Strand { state: b as int, ..t }, at, e1, e2);
            },
            _ => {},
        }
    }
}

/// With one mark per state, the depth that the matcher allows is enough:
/// a greater one changes nothing.
pub proof fn lemma_depth_suffices(prog: Program, lanes: Lanes, t: Strand, at: int, depth: nat)
    requires
        lanes.seen.len() == MAX_STATES,
        depth >= MAX_DEPTH,
    ensures
        closure(prog, lanes, t, at, depth) == closure(prog, lanes, t, at, MAX_DEPTH as nat),
{
    lemma_unseen_bound(lanes.seen);
    lemma_closure_depth(prog, lanes, t, at, depth, MAX_DEPTH as nat);
}

/// One thread of the simulation.
#[derive(Clone, Copy, Debug, PartialEq, Eq)]
pub struct NfaStateInfo {
    /// The instruction the thread stands at.
    pub state: u8,
    /// The text offset at which its match begins.
    pub start: usize,
    /// The text offset at which its match ended, once it has.
    pub end: Option<usize>,
}

impl View for NfaStateInfo {
    type V = Strand;

    open spec fn view(&self) -> Strand {
        Strand {
            state: self.state as int,
            start: self.start as int,
            end: match self.end {
                Some(e) => Some(e as int),
                None => None,
            },
        }
    }
}

/// The threads of one step in the order of their priority, and a mark for
/// each state that was entered.
pub struct ActiveSet {
    threads: [NfaStateInfo; MAX_STATES],
    count: usize,
    seen: [bool; MAX_STATES],
}

impl View for ActiveSet {
    type V = Lanes;

    closed spec fn view(&self) -> Lanes {
        Lanes {
            strands: Seq::new(self.count as nat, |k: int| self.threads@[k]@),
            seen: self.seen@,
        }
    }
}

impl ActiveSet {
    /// There is room for a thread at every state not yet entered.
    pub closed spec fn wf(&self) -> bool {
        self.count + unseen(self.seen@) <= MAX_STATES
    }

    /// The set without threads, in which no state was entered.
    pub fn new() -> (r: ActiveSet)
        ensures
            r@ == Lanes::empty(),
            r.wf(),
    {
        let r = ActiveSet {
            threads: [NfaStateInfo { state: 0, start: 0, end: None };MAX_STATES],
            count: 0,
            seen: [false;MAX_STATES],
        };
        proof {
            lemma_unseen_bound(r.seen@);
            assert(r@.strands =~= Lanes::empty().strands);
            assert(r@.seen =~= Lanes::empty().seen);
        }
        r
    }

    /// The number of threads.
    pub fn len(&self) -> (r: usize)
        requires
            self.wf(),
        ensures
            r == self@.strands.len(),
    {
        self.count
    }

    /// The thread of rank `k`.
    pub fn get(&self, k: usize) -> (r: NfaStateInfo)
        requires
            self.wf(),
            k < self@.strands.len(),
        ensures
            r@ == self@.strands[k as int],
    {
        proof {
            lemma_unseen_bound(self.seen@);
        }
        self.threads[k]
    }
}

/// Lets the thread `info` into `set` at text offset `text_idx`: follows the
/// jumps and splits from its state and inserts it at each other instruction
/// that it reaches first.
pub fn make_epsilon_transitions_and_insert(
    regex: &Regex,
    info: NfaStateInfo,
    text_idx: usize,
    set: &mut ActiveSet,
    depth: usize,
)
    requires
        regex.wf(),
        old(set).wf(),
    ensures
        final(set).wf(),
        final(set)@ == closure(regex@, old(set)@, info@, text_idx as int, depth as nat),
    decreases depth,
{
    let state: usize = info.state as usize;
    if depth == 0 || state >= MAX_STATES || set.seen[state] {
        return ;
    }
    proof {
        lemma_unseen_enter(set.seen@, state as int);
    }
    set.seen[state] = true;
    let ghost marked = set@;
    match regex.instr(state) {
        RegexObj::Jmp(to) => {
            make_epsilon_transitions_and_insert(
                regex,
                NfaStateInfo { state: to, ..info },
                text_idx,
                set,
                depth - 1,
            );
        },
        RegexObj::Split(lhs, rhs) => {
            make_epsilon_transitions_and_insert(
                regex,
                NfaStateInfo { state: lhs, ..info },
                text_idx,
                set,
                depth - 1,
            );
            make_epsilon_transitions_and_insert(
                regex,
                NfaStateInfo { state: rhs, ..info },
                text_idx,
                set,
                depth - 1,
            );
        },
        obj => {
            // Nothing reached this state before: the thread takes it.
            let end = if obj == RegexObj::Unused {
                Some(
                    match info.end {
                        Some(e) => e,
                        None => text_idx,
                    },
                )
            } else {
                None
            };
            let thread = NfaStateInfo { end, ..info };
            proof {
                lemma_unseen_bound(set.seen@);
            }
            set.threads[set.count] = thread;
            set.count += 1;
            assert(set@.strands =~= marked.strands.push(thread@));
        },
    }
}

/// Lets the thread `info` meet the byte `c` at text offset `text_idx`, and
/// puts what becomes of it into `next`.
pub fn propogate_state(
    regex: &Regex,
    info: NfaStateInfo,
    c: u8,
    text_idx: usize,
    next: &mut ActiveSet,
)
    requires
        regex.wf(),
        old(next).wf(),
        text_idx < usize::MAX,
    ensures
        final(next).wf(),
        final(next)@ == advance(regex@, old(next)@, info@, c, text_idx as int),
{
    let obj = regex.instr(info.state as usize);
    if obj == RegexObj::Unused {
        make_epsilon_transitions_and_insert(regex, info, text_idx + 1, next, MAX_DEPTH);
    } else if regex.match_one(obj, c) {
        make_epsilon_transitions_and_insert(
            regex,
            NfaStateInfo { state: info.state + 1, ..info },
            text_idx + 1,
            next,
            MAX_DEPTH,
        );
    }
}

/// The offsets of a match as mathematical integers.
pub open spec fn span(r: Option<(usize, usize)>) -> Option<(int, int)> {
    match r {
        Some((s, e)) => Some((s as int, e as int)),
        None => None,
    }
}

/// Runs `regex` against `text` and returns the offsets at which the first
/// match begins and ends.
pub fn matches_nfa(regex: &Regex, text: &[u8]) -> (r: Option<(usize, usize)>)
    requires
        regex.wf(),
    ensures
        span(r) == found(regex@, text@),
{
    let n: usize = text.len();
    let anchored = regex.instr(0) == RegexObj::Begin;
    let initial: u8 = if anchored {
        1
    } else {
        0
    };
    let mut current = ActiveSet::new();
    make_epsilon_transitions_and_insert(
        regex,
        NfaStateInfo { state: initial, start: 0, end: None },
        0,
        &mut current,
        MAX_DEPTH,
    );

    let mut i: usize = 0;
    while i < n
        invariant
            n == text@.len(),
            i <= n,
            regex.wf(),
            current.wf(),
            scan(regex@, text@, i as int, current@.strands, anchored) == found(regex@, text@),
        decreases n - i,
    {
        if current.len() == 0 {
            return None;
        }
        // Short circuit if the first thread is finished
        let head = current.get(0);
        if regex.instr(head.state as usize) == RegexObj::Unused {
            let end = match head.end {
                Some(e) => e,
                None => i,
            };
            return Some((head.start, end));
        }
        let c = text[i];
        let mut next = ActiveSet::new();
        let mut k: usize = 0;
        while k < current.len()
            invariant
                regex.wf(),
                current.wf(),
                next.wf(),
                i < n,
                k <= current@.strands.len(),
                sweep(regex@, current@.strands, k as int, next@, c, i as int) == sweep(
                    regex@,
                    current@.strands,
                    0,
                    Lanes::empty(),
                    c,
                    i as int,
                ),
            decreases current@.strands.len() - k,
        {
            propogate_state(regex, current.get(k), c, i, &mut next);
            k += 1;
        }
        // A new thread starts behind this byte, last in rank
        if !anchored {
            make_epsilon_transitions_and_insert(
                regex,
                NfaStateInfo { state: 0, start: i + 1, end: None },
                i + 1,
                &mut next,
                MAX_DEPTH,
            );
        }
        current = next;
        i += 1;
    }

    // Search for a finished thread
    let mut k: usize = 0;
    while k < current.len()
        invariant
            n == text@.len(),
            regex.wf(),
            current.wf(),
            k <= current@.strands.len(),
            first_finished(regex@, current@.strands, k as int, n as int) == found(
                regex@,
                text@,
            ),
        decreases current@.strands.len() - k,
    {
        let thread = current.get(k);
        let obj = regex.instr(thread.state as usize);
        if obj == RegexObj::Unused || obj == RegexObj::End {
            let end = match thread.end {
                Some(e) => e,
                None => n,
            };
            return Some((thread.start, end));
        }
        k += 1;
    }
    None
}

/// What a caller gets for the match `m` in `text`: the bytes between the two
/// offsets, which lie inside the text.
pub open spec fn slice_of(text: Seq<u8>, m: Option<(int, int)>, r: Option<&[u8]>) -> bool {
    match m {
        Some((s, e)) => 0 <= s <= e <= text.len() && r is Some && r.unwrap()@ == text.subrange(
            s,
            e,
        ),
        None => r is None,
    }
}

impl Regex {
    /// Finds the first match of this program in `text` and returns the
    /// matched part of the text.
    pub fn matches<'t>(&self, text: &'t [u8]) -> (r: Option<&'t [u8]>)
        requires
            self.wf(),
        ensures
            slice_of(text@, found(self@, text@), r),
    {
        proof {
            lemma_match_within_text(self@, text@);
        }
        match matches_nfa(self, text) {
            Some((start, end)) => Some(slice_subrange(text, start, end)),
            None => None,
        }
    }
}

} // verus!
