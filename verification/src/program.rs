//! The compiled program: its instructions and its class buffer.

use vstd::prelude::*;
use vstd::slice::slice_subrange;
use crate::chars::{alnum, class_match, digit, whitespace};
use crate::chars::{match_alphanum, match_class, match_digit, match_dot, match_whitespace};

verus! {

/// The number of instruction slots of a program.
pub const MAX_REGEXP_OBJECTS: usize = 30;

/// The capacity of a program's class buffer, in bytes.
pub const MAX_CHAR_CLASS_LEN: usize = 40;

/// How many groups may be open at once while compiling.
pub const MAX_NESTING: usize = 20;

/// One instruction of a compiled program.
#[derive(Copy, Clone, PartialEq, Eq, Debug, Structural)]
pub enum RegexObj {
    /// Nothing was compiled here: a thread that arrives has matched.
    Unused,
    /// Consumes any byte.
    Dot,
    /// In slot 0, ties every match to the start of the text.
    Begin,
    /// Holds only at the end of the text.
    End,
    /// Consumes this byte.
    Char(u8),
    /// Consumes a byte of the class stored at `begin..begin + len`.
    CharClass { begin: u8, len: u8 },
    /// Consumes a byte outside the class stored at `begin..begin + len`.
    InvCharClass { begin: u8, len: u8 },
    /// Consumes a decimal digit.
    Digit,
    /// Consumes a byte that is no decimal digit.
    NotDigit,
    /// Consumes a letter, a digit or an underscore.
    Alpha,
    /// Consumes a byte that is none of these.
    NotAlpha,
    /// Consumes a whitespace byte.
    Whitespace,
    /// Consumes a byte that is no whitespace.
    NotWhitespace,
    /// Goes on at the given slot.
    Jmp(u8),
    /// Goes on at both slots; the first is preferred.
    Split(u8, u8),
}

impl RegexObj {
    /// Where the body of a class instruction lies in the class buffer: from
    /// the first offset up to the second.
    pub open spec fn class_range(self) -> Option<(int, int)> {
        match self {
            RegexObj::CharClass { begin, len } => Some((begin as int, begin + len)),
            RegexObj::InvCharClass { begin, len } => Some((begin as int, begin + len)),
            _ => None,
        }
    }
}

/// The mathematical content of a [`Regex`].
pub struct Program {
    /// The instruction slots, `MAX_REGEXP_OBJECTS` of them.
    pub instrs: Seq<RegexObj>,
    /// The class buffer, `MAX_CHAR_CLASS_LEN` bytes.
    pub classes: Seq<u8>,
}

impl Program {
    /// The program in which nothing was compiled.
    pub open spec fn blank() -> Program {
        Program {
            instrs: Seq::new(MAX_REGEXP_OBJECTS as nat, |k: int| RegexObj::Unused),
            classes: Seq::new(MAX_CHAR_CLASS_LEN as nat, |k: int| 0u8),
        }
    }

    /// The instruction at `k`. Past the last slot lies the state of a thread
    /// that ran through a full program, and it reads as `Unused`.
    pub open spec fn instr_at(self, k: int) -> RegexObj {
        if 0 <= k < self.instrs.len() {
            self.instrs[k]
        } else {
            RegexObj::Unused
        }
    }

    /// The program with `obj` in slot `k`.
    pub open spec fn put(self, k: int, obj: RegexObj) -> Program {
        Program { instrs: self.instrs.update(k, obj), ..self }
    }

    /// The program with the instructions of `from..to` moved one slot to the
    /// right. Slot `from` keeps what it held.
    pub open spec fn open_gap(self, from: int, to: int) -> Program {
        Program {
            instrs: Seq::new(
                self.instrs.len(),
                |k: int|
                    if from < k <= to {
                        self.instrs[k - 1]
                    } else {
                        self.instrs[k]
                    },
            ),
            ..self
        }
    }

    /// The program with `body` written into the class buffer from `at` on.
    pub open spec fn store(self, at: int, body: Seq<u8>) -> Program {
        Program {
            classes: Seq::new(
                self.classes.len(),
                |k: int|
                    if at <= k < at + body.len() {
                        body[k - at]
                    } else {
                        self.classes[k]
                    },
            ),
            ..self
        }
    }

    /// `obj` may stand in a program whose emitted instructions end before
    /// `limit` and whose class bytes end at `class_end`.
    pub open spec fn fits(obj: RegexObj, limit: int, class_end: int) -> bool {
        match obj {
            RegexObj::Jmp(t) => t <= limit,
            RegexObj::Split(a, b) => a <= limit && b <= limit,
            RegexObj::CharClass { begin, len } => begin + len <= class_end,
            RegexObj::InvCharClass { begin, len } => begin + len <= class_end,
            _ => true,
        }
    }

    /// If both instructions are classes, the body of `first` ends where the
    /// body of `second` begins, or before.
    pub open spec fn apart(first: RegexObj, second: RegexObj) -> bool {
        match (first.class_range(), second.class_range()) {
            (Some((_, end)), Some((begin, _))) => end <= begin,
            _ => true,
        }
    }

    /// The class bodies lie in the class buffer in the order of their
    /// instructions, and no two of them overlap.
    pub open spec fn classes_apart(self) -> bool {
        forall|a: int, b: int|
            0 <= a < b < self.instrs.len() ==> Self::apart(
                #[trigger] self.instrs[a],
                #[trigger] self.instrs[b],
            )
    }

    /// The instructions stand one behind the other from slot 0 on: behind
    /// an `Unused` slot every slot is `Unused`.
    pub open spec fn packed(self) -> bool {
        forall|a: int, b: int|
            0 <= a < b < self.instrs.len() && (#[trigger] self.instrs[a]) == RegexObj::Unused ==> (
            #[trigger] self.instrs[b]) == RegexObj::Unused
    }

    /// Both buffers have their fixed size, the instructions are packed,
    /// every jump lands on a slot or just past the last one, every class
    /// lies inside the class buffer, and no two classes overlap.
    pub open spec fn wf(self) -> bool {
        &&& self.instrs.len() == MAX_REGEXP_OBJECTS
        &&& self.classes.len() == MAX_CHAR_CLASS_LEN
        &&& self.packed()
        &&& self.classes_apart()
        &&& forall|k: int|
            0 <= k < self.instrs.len() ==> Self::fits(
                #[trigger] self.instrs[k],
                MAX_REGEXP_OBJECTS as int,
                MAX_CHAR_CLASS_LEN as int,
            )
    }

    /// The body of the class stored at `begin..begin + len`.
    pub open spec fn class_body(self, begin: u8, len: u8) -> Seq<u8> {
        self.classes.subrange(begin as int, begin + len)
    }

    /// The instruction `obj` consumes the byte `c`. Instructions that consume
    /// nothing accept no byte.
    pub open spec fn accepts(self, obj: RegexObj, c: u8) -> bool {
        match obj {
            RegexObj::Dot => true,
            RegexObj::Char(b) => c == b,
            RegexObj::CharClass { begin, len } => class_match(self.class_body(begin, len), c),
            RegexObj::InvCharClass { begin, len } => !class_match(self.class_body(begin, len), c),
            RegexObj::Digit => digit(c),
            RegexObj::NotDigit => !digit(c),
            RegexObj::Alpha => alnum(c),
            RegexObj::NotAlpha => !alnum(c),
            RegexObj::Whitespace => whitespace(c),
            RegexObj::NotWhitespace => !whitespace(c),
            _ => false,
        }
    }
}

/// A compiled pattern.
#[derive(Debug)]
pub struct Regex {
    pattern: [RegexObj; MAX_REGEXP_OBJECTS],
    class_buf: [u8; MAX_CHAR_CLASS_LEN],
}

impl View for Regex {
    type V = Program;

    closed spec fn view(&self) -> Program {
        Program { instrs: self.pattern@, classes: self.class_buf@ }
    }
}

impl Regex {
    /// See [`Program::wf`].
    pub open spec fn wf(&self) -> bool {
        self@.wf()
    }

    /// The program in which nothing was compiled. It matches the empty
    /// string at the start of every text.
    pub fn zeroed() -> (r: Regex)
        ensures
            r@ == Program::blank(),
            r.wf(),
    {
        let r = Regex {
            pattern: [RegexObj::Unused;MAX_REGEXP_OBJECTS],
            class_buf: [0u8;MAX_CHAR_CLASS_LEN],
        };
        assert(r@.instrs =~= Program::blank().instrs);
        assert(r@.classes =~= Program::blank().classes);
        r
    }

    /// Tests whether this program is well formed. Every program that
    /// `compile` or `zeroed` returns is.
    pub fn is_well_formed(&self) -> (r: bool)
        ensures
            r == self.wf(),
    {
        // Where the class bodies seen so far end.
        let mut end: usize = 0;
        let ghost mut last: int = -1;
        // Whether an unused slot was seen.
        let mut ended = false;
        let ghost mut hole: int = -1;
        let mut k: usize = 0;
        while k < MAX_REGEXP_OBJECTS
            invariant
                k <= MAX_REGEXP_OBJECTS,
                end <= MAX_CHAR_CLASS_LEN,
                -1 <= hole < k,
                ended <==> hole >= 0,
                hole >= 0 ==> self.pattern@[hole] == RegexObj::Unused,
                !ended ==> forall|a: int|
                    0 <= a < k ==> (#[trigger] self.pattern@[a]) != RegexObj::Unused,
                forall|a: int, b: int|
                    0 <= a < b < k && (#[trigger] self.pattern@[a]) == RegexObj::Unused ==> (
                    #[trigger] self.pattern@[b]) == RegexObj::Unused,
                -1 <= last < k,
                last < 0 ==> end == 0,
                last >= 0 ==> (self.pattern@[last].class_range() matches Some((_, e)) && e == end),
                forall|a: int|
                    0 <= a < k ==> Program::fits(
                        #[trigger] self.pattern@[a],
                        MAX_REGEXP_OBJECTS as int,
                        MAX_CHAR_CLASS_LEN as int,
                    ),
                forall|a: int|
                    0 <= a < k ==> ((#[trigger] self.pattern@[a]).class_range() matches Some(
                        (_, e),
                    ) ==> e <= end),
                forall|a: int, b: int|
                    0 <= a < b < k ==> Program::apart(
                        #[trigger] self.pattern@[a],
                        #[trigger] self.pattern@[b],
                    ),
            decreases MAX_REGEXP_OBJECTS - k,
        {
            if self.pattern[k] == RegexObj::Unused {
                ended = true;
                proof {
                    hole = k as int;
                }
            } else if ended {
                return false;
            }
            match self.pattern[k] {
                RegexObj::Jmp(to) => {
                    if to as usize > MAX_REGEXP_OBJECTS {
                        return false;
                    }
                },
                RegexObj::Split(lhs, rhs) => {
                    if lhs as usize > MAX_REGEXP_OBJECTS || rhs as usize > MAX_REGEXP_OBJECTS {
                        return false;
                    }
                },
                RegexObj::CharClass { begin, len } | RegexObj::InvCharClass { begin, len } => {
                    if begin as usize + len as usize > MAX_CHAR_CLASS_LEN {
                        return false;
                    }
                    if end > begin as usize {
                        assert(!Program::apart(self.pattern@[last], self.pattern@[k as int]));
                        return false;
                    }
                    end = begin as usize + len as usize;
                    proof {
                        last = k as int;
                    }
                },
                _ => {},
            }
            k += 1;
        }
        true
    }

    /// Reads the instruction at `k`, `Unused` past the last slot.
    pub(crate) fn instr(&self, k: usize) -> (r: RegexObj)
        requires
            self@.instrs.len() == MAX_REGEXP_OBJECTS,
        ensures
            r == self@.instr_at(k as int),
    {
        if k < MAX_REGEXP_OBJECTS {
            self.pattern[k]
        } else {
            RegexObj::Unused
        }
    }

    /// Writes `obj` into slot `k`.
    pub(crate) fn set_instr(&mut self, k: usize, obj: RegexObj)
        requires
            k < MAX_REGEXP_OBJECTS,
        ensures
            final(self)@ == (Program { instrs: old(self)@.instrs.update(k as int, obj), ..old(self)@ }),
    {
        self.pattern[k] = obj;
    }

    /// Moves the instructions of `start..end` one slot to the right.
    pub(crate) fn shift(&mut self, start: usize, end: usize)
        requires
            start <= end < MAX_REGEXP_OBJECTS,
        ensures
            final(self)@ == old(self)@.open_gap(start as int, end as int),
    {
        let ghost before = self@;
        let mut k: usize = end;
        while k > start
            invariant
                start <= k <= end < MAX_REGEXP_OBJECTS,
                before.instrs.len() == MAX_REGEXP_OBJECTS,
                self@.classes == before.classes,
                forall|m: int|
                    0 <= m < MAX_REGEXP_OBJECTS ==> #[trigger] self.pattern@[m] == if k < m <= end {
                        before.instrs[m - 1]
                    } else {
                        before.instrs[m]
                    },
            decreases k,
        {
            let ghost prev = self.pattern@;
            self.pattern[k] = self.pattern[k - 1];
            assert(self.pattern@ == prev.update(k as int, prev[k - 1]));
            k -= 1;
        }
        assert(self@.instrs =~= before.open_gap(start as int, end as int).instrs);
    }

    /// Copies `src[from..to]` into the class buffer from `at` on.
    pub(crate) fn store_class(&mut self, at: usize, src: &[u8], from: usize, to: usize)
        requires
            from <= to <= src@.len(),
            at + (to - from) <= MAX_CHAR_CLASS_LEN,
        ensures
            final(self)@ == old(self)@.store(at as int, src@.subrange(from as int, to as int)),
    {
        let ghost before = self@;
        let ghost body = src@.subrange(from as int, to as int);
        let mut k: usize = 0;
        while k < to - from
            invariant
                from <= to <= src@.len(),
                at + (to - from) <= MAX_CHAR_CLASS_LEN,
                k <= to - from,
                body == src@.subrange(from as int, to as int),
                before.classes.len() == MAX_CHAR_CLASS_LEN,
                self@.instrs == before.instrs,
                forall|m: int|
                    0 <= m < MAX_CHAR_CLASS_LEN ==> #[trigger] self.class_buf@[m] == if at <= m < at
                        + k {
                        body[m - at]
                    } else {
                        before.classes[m]
                    },
            decreases to - from - k,
        {
            self.class_buf[at + k] = src[from + k];
            k += 1;
        }
        assert(self@.classes =~= before.store(at as int, body).classes);
    }

    /// Tests `c` against the class stored at `begin..begin + len`.
    pub fn match_charclass(&self, begin: u8, len: u8, c: u8) -> (r: bool)
        requires
            self@.classes.len() == MAX_CHAR_CLASS_LEN,
            begin + len <= MAX_CHAR_CLASS_LEN,
        ensures
            r == class_match(self@.class_body(begin, len), c),
    {
        let buf = self.class_buf.as_slice();
        let class = slice_subrange(buf, begin as usize, begin as usize + len as usize);
        match_class(class, c)
    }

    /// Tests whether the instruction `p` consumes `c`.
    pub fn match_one(&self, p: RegexObj, c: u8) -> (r: bool)
        requires
            self@.classes.len() == MAX_CHAR_CLASS_LEN,
            Program::fits(p, MAX_REGEXP_OBJECTS as int, MAX_CHAR_CLASS_LEN as int),
        ensures
            r == self@.accepts(p, c),
    {
        match p {
            RegexObj::Dot => match_dot(c),
            RegexObj::CharClass { begin, len } => self.match_charclass(begin, len, c),
            RegexObj::InvCharClass { begin, len } => !self.match_charclass(begin, len, c),
            RegexObj::Digit => match_digit(c),
            RegexObj::NotDigit => !match_digit(c),
            RegexObj::Alpha => match_alphanum(c),
            RegexObj::NotAlpha => !match_alphanum(c),
            RegexObj::Whitespace => match_whitespace(c),
            RegexObj::NotWhitespace => !match_whitespace(c),
            RegexObj::Char(expected) => c == expected,
            _ => false,
        }
    }
}

} // verus!
