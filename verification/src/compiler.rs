//! The pattern compiler: from the bytes of a pattern to a program.

use vstd::prelude::*;
use crate::chars::{
    BACKSLASH, CARET, CLOSE_BRACKET, CLOSE_PAREN, DOLLAR, LOWER_D, LOWER_S, LOWER_W, OPEN_BRACKET,
    OPEN_PAREN, PERIOD, PLUS, QUESTION, STAR, UPPER_D, UPPER_S, UPPER_W,
};
use crate::program::{Program, Regex, RegexObj, MAX_CHAR_CLASS_LEN, MAX_NESTING, MAX_REGEXP_OBJECTS};

verus! {

/// The compiler between two tokens of the pattern.
#[verifier::ext_equal]
pub struct Build {
    /// What has been compiled.
    pub prog: Program,
    /// How many bytes of the pattern have been read.
    pub pos: int,
    /// How many instructions have been emitted.
    pub len: int,
    /// How many bytes of the class buffer are taken.
    pub class_len: int,
    /// The slot at which the latest atom begins: what a quantifier repeats.
    pub restart: int,
    /// The slots at which the open groups begin, the innermost last.
    pub groups: Seq<int>,
}

/// The instruction for a backslash followed by `e`.
pub open spec fn escape_instr(e: u8) -> RegexObj {
    if e == LOWER_D {
        RegexObj::Digit
    } else if e == UPPER_D {
        RegexObj::NotDigit
    } else if e == LOWER_W {
        RegexObj::Alpha
    } else if e == UPPER_W {
        RegexObj::NotAlpha
    } else if e == LOWER_S {
        RegexObj::Whitespace
    } else if e == UPPER_S {
        RegexObj::NotWhitespace
    } else {
        RegexObj::Char(e)
    }
}

/// The index of the `]` that closes a class whose body is read from `i` on.
/// A backslash takes the byte after it along, whatever it is.
pub open spec fn class_close(p: Seq<u8>, i: int) -> Option<int>
    decreases p.len() - i,
{
    if i < 0 || i >= p.len() {
        None
    } else if p[i] == CLOSE_BRACKET {
        Some(i)
    } else if p[i] == BACKSLASH {
        if i + 1 >= p.len() {
            None
        } else {
            class_close(p, i + 2)
        }
    } else {
        class_close(p, i + 1)
    }
}

/// The group starts after a gap was opened at `from`: those at or behind it
/// move along.
pub open spec fn bump(groups: Seq<int>, from: int) -> Seq<int> {
    Seq::new(
        groups.len(),
        |k: int|
            if groups[k] >= from {
                groups[k] + 1
            } else {
                groups[k]
            },
    )
}

impl Build {
    /// The compiler before the first byte.
    pub open spec fn start() -> Build {
        Build {
            prog: Program::blank(),
            pos: 0,
            len: 0,
            class_len: 0,
            restart: 0,
            groups: Seq::empty(),
        }
    }

    /// What holds between any two tokens: the emitted instructions fill the
    /// slots before `len` and the rest is `Unused`; jumps land at or before
    /// `len`; classes lie in the taken part of the class buffer, one behind
    /// the other; restart point and group starts are at or before `len`.
    pub open spec fn inv(self) -> bool {
        &&& self.prog.instrs.len() == MAX_REGEXP_OBJECTS
        &&& self.prog.classes.len() == MAX_CHAR_CLASS_LEN
        &&& 0 <= self.pos
        &&& 0 <= self.restart <= self.len <= MAX_REGEXP_OBJECTS
        &&& 0 <= self.class_len <= MAX_CHAR_CLASS_LEN
        &&& self.groups.len() <= MAX_NESTING
        &&& self.prog.classes_apart()
        &&& forall|g: int| 0 <= g < self.groups.len() ==> 0 <= #[trigger] self.groups[g] <= self.len
        &&& forall|k: int|
            0 <= k < self.len ==> (#[trigger] self.prog.instrs[k]) != RegexObj::Unused
                && Program::fits(self.prog.instrs[k], self.len, self.class_len)
        &&& forall|k: int|
            self.len <= k < MAX_REGEXP_OBJECTS ==> (#[trigger] self.prog.instrs[k])
                == RegexObj::Unused
    }

    /// An atom of `consumed` pattern bytes: `obj` takes the next slot, which
    /// becomes the restart point.
    pub open spec fn emit(self, obj: RegexObj, consumed: int) -> Option<Build> {
        if self.len >= MAX_REGEXP_OBJECTS {
            None
        } else {
            Some(
                Build {
                    prog: self.prog.put(self.len, obj),
                    pos: self.pos + consumed,
                    len: self.len + 1,
                    restart: self.len,
                    ..self
                },
            )
        }
    }

    /// `(`: remembers where the group begins.
    pub open spec fn open_group(self) -> Option<Build> {
        if self.groups.len() >= MAX_NESTING {
            None
        } else {
            Some(Build { groups: self.groups.push(self.len), pos: self.pos + 1, ..self })
        }
    }

    /// `)`: the innermost open group becomes what a quantifier repeats.
    pub open spec fn close_group(self) -> Option<Build> {
        if self.groups.len() == 0 {
            None
        } else {
            Some(
                Build {
                    restart: self.groups.last(),
                    groups: self.groups.drop_last(),
                    pos: self.pos + 1,
                    ..self
                },
            )
        }
    }

    /// `+`: after the atom, go back to its start or, failing that, go on.
    pub open spec fn plus(self) -> Option<Build> {
        if self.len >= MAX_REGEXP_OBJECTS {
            None
        } else {
            Some(
                Build {
                    prog: self.prog.put(
                        self.len,
                        RegexObj::Split(self.restart as u8, (self.len + 1) as u8),
                    ),
                    pos: self.pos + 1,
                    len: self.len + 1,
                    ..self
                },
            )
        }
    }

    /// `*`: the atom moves one slot to the right; before it a split enters it
    /// or, failing that, passes it; behind it a jump leads back to the split.
    pub open spec fn star(self) -> Option<Build> {
        if self.len + 2 > MAX_REGEXP_OBJECTS {
            None
        } else {
            Some(
                Build {
                    prog: self.prog.open_gap(self.restart, self.len).put(
                        self.restart,
                        RegexObj::Split((self.restart + 1) as u8, (self.len + 2) as u8),
                    ).put(self.len + 1, RegexObj::Jmp(self.restart as u8)),
                    pos: self.pos + 1,
                    len: self.len + 2,
                    groups: bump(self.groups, self.restart),
                    ..self
                },
            )
        }
    }

    /// `?`: the atom moves one slot to the right; before it a split passes
    /// it or, failing that, enters it. Passing comes first: the quantifier
    /// is lazy.
    pub open spec fn optional(self) -> Option<Build> {
        if self.len + 1 > MAX_REGEXP_OBJECTS {
            None
        } else {
            Some(
                Build {
                    prog: self.prog.open_gap(self.restart, self.len).put(
                        self.restart,
                        RegexObj::Split((self.len + 1) as u8, (self.restart + 1) as u8),
                    ),
                    pos: self.pos + 1,
                    len: self.len + 1,
                    groups: bump(self.groups, self.restart),
                    ..self
                },
            )
        }
    }

    /// `[`: the bytes up to the closing `]`, without a leading `^`, go into
    /// the class buffer as they stand, and a class instruction that names
    /// them is emitted as an atom.
    pub open spec fn class(self, p: Seq<u8>) -> Option<Build> {
        let negated = self.pos + 1 < p.len() && p[self.pos + 1] == CARET;
        let from = if negated {
            self.pos + 2
        } else {
            self.pos + 1
        };
        match class_close(p, from) {
            None => None,
            Some(close) => {
                let n = close - from;
                if self.class_len + n > MAX_CHAR_CLASS_LEN || self.len >= MAX_REGEXP_OBJECTS {
                    None
                } else {
                    let obj = if negated {
                        RegexObj::InvCharClass { begin: self.class_len as u8, len: n as u8 }
                    } else {
                        RegexObj::CharClass { begin: self.class_len as u8, len: n as u8 }
                    };
                    Some(
                        Build {
                            prog: self.prog.store(
                                self.class_len,
                                p.subrange(from, close),
                            ).put(self.len, obj),
                            pos: close + 1,
                            len: self.len + 1,
                            class_len: self.class_len + n,
                            restart: self.len,
                            ..self
                        },
                    )
                }
            },
        }
    }

    /// The compiler after the token at `pos`, or `None` where the token is
    /// cut short or a capacity is exceeded.
    pub open spec fn step(self, p: Seq<u8>) -> Option<Build>
        recommends
            self.pos < p.len(),
    {
        let c = p[self.pos];
        if c == OPEN_PAREN {
            self.open_group()
        } else if c == CLOSE_PAREN {
            self.close_group()
        } else if c == PLUS {
            self.plus()
        } else if c == STAR {
            self.star()
        } else if c == QUESTION {
            self.optional()
        } else if c == OPEN_BRACKET {
            self.class(p)
        } else if c == BACKSLASH {
            if self.pos + 1 < p.len() {
                self.emit(escape_instr(p[self.pos + 1]), 2)
            } else {
                None
            }
        } else if c == CARET {
            self.emit(RegexObj::Begin, 1)
        } else if c == DOLLAR {
            self.emit(RegexObj::End, 1)
        } else if c == PERIOD {
            self.emit(RegexObj::Dot, 1)
        } else {
            self.emit(RegexObj::Char(c), 1)
        }
    }

    /// The compiler after the last token of `p`, or `None` where some token
    /// fails.
    pub open spec fn run(self, p: Seq<u8>) -> Option<Build>
        decreases p.len() - self.pos,
        via Self::run_terminates
    {
        if self.pos < 0 || self.pos >= p.len() {
            Some(self)
        } else {
            match self.step(p) {
                None => None,
                Some(next) => next.run(p),
            }
        }
    }

    #[via_fn]
    proof fn run_terminates(self, p: Seq<u8>) {
        if 0 <= self.pos < p.len() {
            lemma_step_advances(p, self);
        }
    }
}

/// The program that `p` compiles to, or `None` where it does not compile.
pub open spec fn compiled(p: Seq<u8>) -> Option<Program> {
    match Build::start().run(p) {
        None => None,
        Some(b) => Some(b.prog),
    }
}

/// The compiler's state as the executable compiler holds it: the group
/// stack is the first `used` entries of `stack`.
pub open spec fn snapshot(
    prog: Program,
    pos: usize,
    len: usize,
    class_len: usize,
    restart: usize,
    stack: Seq<u8>,
    used: usize,
) -> Build {
    Build {
        prog,
        pos: pos as int,
        len: len as int,
        class_len: class_len as int,
        restart: restart as int,
        groups: Seq::new(used as nat, |k: int| stack[k] as int),
    }
}

/// The instruction for a backslash followed by `e`.
fn escape_obj(e: u8) -> (r: RegexObj)
    ensures
        r == escape_instr(e),
{
    if e == LOWER_D {
        RegexObj::Digit
    } else if e == UPPER_D {
        RegexObj::NotDigit
    } else if e == LOWER_W {
        RegexObj::Alpha
    } else if e == UPPER_W {
        RegexObj::NotAlpha
    } else if e == LOWER_S {
        RegexObj::Whitespace
    } else if e == UPPER_S {
        RegexObj::NotWhitespace
    } else {
        RegexObj::Char(e)
    }
}

/// Finds the `]` that closes the class whose body starts at `from`.
fn scan_class(pattern: &[u8], from: usize) -> (r: Option<usize>)
    requires
        from <= pattern@.len(),
    ensures
        match r {
            Some(k) => class_close(pattern@, from as int) == Some(k as int),
            None => class_close(pattern@, from as int) is None,
        },
{
    let n: usize = pattern.len();
    let mut k: usize = from;
    while k < n
        invariant
            n == pattern@.len(),
            from <= k <= n,
            class_close(pattern@, k as int) == class_close(pattern@, from as int),
        decreases n - k,
    {
        if pattern[k] == CLOSE_BRACKET {
            return Some(k);
        }
        if pattern[k] == BACKSLASH {
            if k + 1 >= n {
                return None;
            }
            k += 2;
        } else {
            k += 1;
        }
    }
    None
}

/// Moves the open groups that start at or behind `from` one slot on.
fn bump_brackets(brackets: &mut [u8; MAX_NESTING], used: usize, from: usize)
    requires
        used <= MAX_NESTING,
        forall|k: int| 0 <= k < used ==> old(brackets)@[k] < u8::MAX,
    ensures
        forall|k: int|
            0 <= k < MAX_NESTING ==> #[trigger] final(brackets)@[k] == if k < used && old(
                brackets,
            )@[k] >= from {
                (old(brackets)@[k] + 1) as u8
            } else {
                old(brackets)@[k]
            },
{
    let ghost before = brackets@;
    let mut k: usize = 0;
    while k < used
        invariant
            k <= used <= MAX_NESTING,
            before.len() == MAX_NESTING,
            forall|m: int| 0 <= m < used ==> before[m] < u8::MAX,
            forall|m: int|
                0 <= m < MAX_NESTING ==> #[trigger] brackets@[m] == if m < k && before[m] >= from {
                    (before[m] + 1) as u8
                } else {
                    before[m]
                },
        decreases used - k,
    {
        if brackets[k] as usize >= from {
            brackets[k] = brackets[k] + 1;
        }
        k += 1;
    }
}

impl Regex {
    /// Compiles `pattern`. `None` comes back where the pattern needs more
    /// than the instruction slots, the class buffer or the group stack
    /// hold, where a backslash or a class is cut short by the pattern's
    /// end, and where `)` closes no group.
    pub fn compile(pattern: &[u8]) -> (r: Option<Regex>)
        ensures
            match r {
                Some(re) => compiled(pattern@) == Some(re@) && re.wf(),
                None => compiled(pattern@) is None,
            },
    {
        let n: usize = pattern.len();
        let mut regex = Regex::zeroed();
        let mut class_bufidx: usize = 0;
        // Index into pattern
        let mut i: usize = 0;
        // Index into the program
        let mut j: usize = 0;
        let mut restart_point: usize = 0;
        let mut brackets: [u8; MAX_NESTING] = [0u8;MAX_NESTING];
        let mut brackets_used: usize = 0;
        assert(snapshot(regex@, i, j, class_bufidx, restart_point, brackets@, brackets_used)
            =~= Build::start());

        while i < n
            invariant
                n == pattern@.len(),
                i <= n,
                brackets_used <= MAX_NESTING,
                snapshot(
                    regex@,
                    i,
                    j,
                    class_bufidx,
                    restart_point,
                    brackets@,
                    brackets_used,
                ).inv(),
                snapshot(regex@, i, j, class_bufidx, restart_point, brackets@, brackets_used).run(
                    pattern@,
                ) == Build::start().run(pattern@),
            decreases n - i,
        {
            let ghost b = snapshot(
                regex@,
                i,
                j,
                class_bufidx,
                restart_point,
                brackets@,
                brackets_used,
            );
            assert forall|g: int| 0 <= g < brackets_used implies #[trigger] brackets@[g] <= j by {
                assert(b.groups[g] == brackets@[g]);
            }
            let c = pattern[i];
            if c == OPEN_PAREN {
                if brackets_used >= MAX_NESTING {
                    return None;
                }
                brackets[brackets_used] = j as u8;
                brackets_used += 1;
                i += 1;
            } else if c == CLOSE_PAREN {
                if brackets_used == 0 {
                    return None;
                }
                brackets_used -= 1;
                restart_point = brackets[brackets_used] as usize;
                i += 1;
            } else if c == PLUS {
                if j >= MAX_REGEXP_OBJECTS {
                    return None;
                }
                regex.set_instr(j, RegexObj::Split(restart_point as u8, j as u8 + 1));
                i += 1;
                j += 1;
            } else if c == STAR {
                // Make sure we have space
                if j + 1 >= MAX_REGEXP_OBJECTS {
                    return None;
                }
                regex.shift(restart_point, j);
                bump_brackets(&mut brackets, brackets_used, restart_point);
                regex.set_instr(
                    restart_point,
                    RegexObj::Split(restart_point as u8 + 1, j as u8 + 2),
                );
                regex.set_instr(j + 1, RegexObj::Jmp(restart_point as u8));
                i += 1;
                j += 2;
            } else if c == QUESTION {
                if j >= MAX_REGEXP_OBJECTS {
                    return None;
                }
                regex.shift(restart_point, j);
                bump_brackets(&mut brackets, brackets_used, restart_point);
                // The branch that skips the atom comes first: lazy.
                regex.set_instr(
                    restart_point,
                    RegexObj::Split(j as u8 + 1, restart_point as u8 + 1),
                );
                i += 1;
                j += 1;
            } else {
                if j >= MAX_REGEXP_OBJECTS {
                    return None;
                }
                let obj: RegexObj;
                if c == OPEN_BRACKET {
                    let negated = i + 1 < n && pattern[i + 1] == CARET;
                    let from: usize = if negated {
                        i + 2
                    } else {
                        i + 1
                    };
                    let close: usize = match scan_class(pattern, from) {
                        Some(k) => k,
                        None => {
                            return None;
                        },
                    };
                    proof {
                        lemma_class_close_bounds(pattern@, from as int);
                    }
                    let len: usize = close - from;
                    if len > MAX_CHAR_CLASS_LEN - class_bufidx {
                        return None;
                    }
                    regex.store_class(class_bufidx, pattern, from, close);
                    obj = if negated {
                        RegexObj::InvCharClass { begin: class_bufidx as u8, len: len as u8 }
                    } else {
                        RegexObj::CharClass { begin: class_bufidx as u8, len: len as u8 }
                    };
                    class_bufidx += len;
                    i = close + 1;
                } else if c == BACKSLASH {
                    if i + 1 >= n {
                        return None;
                    }
                    obj = escape_obj(pattern[i + 1]);
                    i += 2;
                } else {
                    obj = if c == CARET {
                        RegexObj::Begin
                    } else if c == DOLLAR {
                        RegexObj::End
                    } else if c == PERIOD {
                        RegexObj::Dot
                    } else {
                        RegexObj::Char(c)
                    };
                    i += 1;
                }
                regex.set_instr(j, obj);
                restart_point = j;
                j += 1;
            }
            proof {
                let next = snapshot(
                    regex@,
                    i,
                    j,
                    class_bufidx,
                    restart_point,
                    brackets@,
                    brackets_used,
                );
                assert(b.step(pattern@) is Some);
                assert(next =~= b.step(pattern@).unwrap());
                lemma_step_inv(pattern@, b);
            }
        }
        Some(regex)
    }
}

/// A closing bracket is found at or behind the place where the search began,
/// inside the pattern.
pub proof fn lemma_class_close_bounds(p: Seq<u8>, i: int)
    ensures
        class_close(p, i) matches Some(k) ==> 0 <= i <= k < p.len() && p[k] == CLOSE_BRACKET,
    decreases p.len() - i,
{
    if 0 <= i < p.len() && p[i] != CLOSE_BRACKET {
        if p[i] == BACKSLASH {
            if i + 1 < p.len() {
                lemma_class_close_bounds(p, i + 2);
            }
        } else {
            lemma_class_close_bounds(p, i + 1);
        }
    }
}

/// Every token is at least one byte long and ends inside the pattern.
pub proof fn lemma_step_advances(p: Seq<u8>, b: Build)
    requires
        0 <= b.pos < p.len(),
    ensures
        b.step(p) matches Some(next) ==> b.pos < next.pos <= p.len(),
{
    let from = if b.pos + 1 < p.len() && p[b.pos + 1] == CARET {
        b.pos + 2
    } else {
        b.pos + 1
    };
    lemma_class_close_bounds(p, from);
}

/// A token keeps the compiler's invariant.
pub proof fn lemma_step_inv(p: Seq<u8>, b: Build)
    requires
        b.inv(),
        b.pos < p.len(),
    ensures
        b.step(p) matches Some(next) ==> next.inv() && b.pos < next.pos <= p.len(),
{
    lemma_step_advances(p, b);
    if let Some(next) = b.step(p) {
        let c = p[b.pos];
        if c == OPEN_BRACKET {
            let from = if b.pos + 1 < p.len() && p[b.pos + 1] == CARET {
                b.pos + 2
            } else {
                b.pos + 1
            };
            lemma_class_close_bounds(p, from);
        } else if c == STAR || c == QUESTION {
            // What stood in `restart..len` stands one slot further on.
            assert forall|k: int| 0 <= k < next.len implies (#[trigger] next.prog.instrs[k])
                != RegexObj::Unused && Program::fits(
                next.prog.instrs[k],
                next.len,
                next.class_len,
            ) by {
                if b.restart < k <= b.len {
                    assert(next.prog.instrs[k] == b.prog.instrs[k - 1]);
                } else if k < b.restart {
                    assert(next.prog.instrs[k] == b.prog.instrs[k]);
                }
            }
        }
    }
}

/// A pattern that compiles leaves the compiler's invariant intact, with the
/// whole pattern read.
pub proof fn lemma_run_inv(p: Seq<u8>, b: Build)
    requires
        b.inv(),
        b.pos <= p.len(),
    ensures
        b.run(p) matches Some(end) ==> end.inv() && end.pos == p.len(),
    decreases p.len() - b.pos,
{
    if b.pos < p.len() {
        lemma_step_inv(p, b);
        if let Some(next) = b.step(p) {
            lemma_run_inv(p, next);
        }
    }
}

/// Every compiled program is well formed.
pub proof fn lemma_compiled_wf(p: Seq<u8>)
    ensures
        compiled(p) matches Some(prog) ==> prog.wf(),
{
    lemma_run_inv(p, Build::start());
}

/// A class that is closed within `q` is closed at the same place when a
/// byte is put behind `q`.
pub proof fn lemma_class_close_prefix(q: Seq<u8>, x: u8, i: int)
    ensures
        class_close(q, i) matches Some(k) ==> class_close(q.push(x), i) == Some(k),
    decreases q.len() - i,
{
    if 0 <= i < q.len() {
        lemma_class_close_prefix(q, x, i + 1);
        if i + 1 < q.len() {
            lemma_class_close_prefix(q, x, i + 2);
        }
    }
}

/// A token that lies within `q` compiles alike when a byte is put behind
/// `q`.
pub proof fn lemma_step_prefix(q: Seq<u8>, x: u8, b: Build)
    requires
        0 <= b.pos < q.len(),
        b.step(q) is Some,
    ensures
        b.step(q.push(x)) == b.step(q),
{
    let p = q.push(x);
    if q[b.pos] == OPEN_BRACKET {
        let negated = b.pos + 1 < q.len() && q[b.pos + 1] == CARET;
        let from = if negated {
            b.pos + 2
        } else {
            b.pos + 1
        };
        lemma_class_close_prefix(q, x, from);
        lemma_class_close_bounds(q, from);
        let close = class_close(q, from).unwrap();
        assert(p.subrange(from, close) =~= q.subrange(from, close));
    }
}

/// Compiling a pattern with one more byte behind it begins as compiling
/// the pattern does, and goes on from there with that byte.
pub proof fn lemma_run_prefix(q: Seq<u8>, x: u8, b: Build)
    requires
        b.inv(),
        0 <= b.pos <= q.len(),
        b.run(q) is Some,
    ensures
        b.run(q.push(x)) == b.run(q).unwrap().run(q.push(x)),
    decreases q.len() - b.pos,
{
    if b.pos < q.len() {
        lemma_step_prefix(q, x, b);
        lemma_step_inv(q, b);
        lemma_run_prefix(q, x, b.step(q).unwrap());
    }
}

} // verus!
