//! The instruction set and the dispatcher of the backtracking machine.
//!
//! A program is a sequence of instructions run against an input string from
//! a start index. The machine keeps a program counter (PC) and an index into
//! the input (IX). `Split` pushes a backtrack frame and goes on with its
//! first target; when an instruction fails, the top frame is popped and the
//! run resumes there. Reaching `End` is a match; failing with no frame left
//! is no match.
use vstd::prelude::*;
use vstd::string::StringSliceAdditionalSpecFns;
use vstd::utf8::{encode_utf8, is_char_boundary};
use regex::Regex;
use crate::error::Error;
use crate::state::{op_done, State, StateOp};
use crate::utf8::{back_by, codepoint_len_at, fwd_by, lemma_run_boundary, prev_codepoint_ix, spec_codepoint_len};

verus! {

#[verifier::external_type_specification]
#[verifier::external_body]
pub struct ExRegex(regex::Regex);

/// The option bit that asks a run to record a trace of its steps.
pub const OPTION_TRACE: u32 = 1;

/// Default bound on the depth of the backtrack stack.
pub const MAX_STACK: usize = 1000000;

/// Default budget of dispatch steps for one run.
pub const MAX_STEPS: u64 = 18446744073709551615;

/// Instruction of the machine.
#[derive(Debug)]
pub enum Insn {
    /// Successful end of program
    End,
    /// Match any character (including newline)
    Any,
    /// Match any character (not including newline)
    AnyNoNL,
    /// Match the literal string at the current index
    Lit(String),
    /// Split execution into two threads. The two fields are positions of
    /// instructions. Execution first tries the first; if that fails, the
    /// second is tried.
    Split(usize, usize),
    /// Jump to instruction at position
    Jmp(usize),
    /// Save the current string index into the specified slot
    Save(usize),
    /// Save `0` into the specified slot
    Save0(usize),
    /// Set the string index to the value that was saved in the specified
    /// slot. A value that is no position of the input (past its end, or
    /// inside a code point) makes the instruction fail instead.
    Restore(usize),
    /// Repeat greedily (match as much as possible)
    RepeatGr {
        /// Minimum number of matches
        lo: usize,
        /// Maximum number of matches
        hi: usize,
        /// The instruction after the repeat
        next: usize,
        /// The slot for keeping track of the number of repetitions
        repeat: usize,
    },
    /// Repeat non-greedily (prefer matching as little as possible)
    RepeatNg {
        /// Minimum number of matches
        lo: usize,
        /// Maximum number of matches
        hi: usize,
        /// The instruction after the repeat
        next: usize,
        /// The slot for keeping track of the number of repetitions
        repeat: usize,
    },
    /// Repeat greedily and prevent infinite loops from empty matches
    RepeatEpsilonGr {
        /// Minimum number of matches
        lo: usize,
        /// The instruction after the repeat
        next: usize,
        /// The slot for keeping track of the number of repetitions
        repeat: usize,
        /// The slot for saving the previous IX to check if we had an empty match
        check: usize,
    },
    /// Repeat non-greedily and prevent infinite loops from empty matches
    RepeatEpsilonNg {
        /// Minimum number of matches
        lo: usize,
        /// The instruction after the repeat
        next: usize,
        /// The slot for keeping track of the number of repetitions
        repeat: usize,
        /// The slot for saving the previous IX to check if we had an empty match
        check: usize,
    },
    /// Negative look-around failed
    FailNegativeLookAround,
    /// Set IX back by the specified number of characters
    GoBack(usize),
    /// Back reference to a group number to check
    Backref(usize),
    /// Begin of atomic group. Reports a stack overflow only when the slot
    /// vector that hosts the explicit stack cannot grow (its length is a
    /// `usize`).
    BeginAtomic,
    /// End of atomic group
    EndAtomic,
    /// Delegate matching to the inner regex engine for a fixed size
    DelegateSized(Box<Regex>, usize),
    /// Delegate matching to the inner regex engine
    Delegate {
        /// The regex
        inner: Box<Regex>,
        /// The same regex but matching an additional character on the left,
        /// for patterns that need to see the previous character (such as
        /// `\b`).
        inner1: Option<Box<Regex>>,
        /// The first group number that this regex captures (if it contains groups)
        start_group: usize,
        /// The last group number
        end_group: usize,
    },
}

/// Sequence of instructions for the machine to execute.
#[derive(Debug)]
pub struct Prog {
    /// Instructions of the program
    pub body: Vec<Insn>,
    n_saves: usize,
}

/// `ix` is an index of `s` at the start of a code point, or its end.
pub open spec fn position_ok(s: &str, ix: usize) -> bool {
    ix <= s.spec_bytes().len() && is_char_boundary(s.spec_bytes(), ix as int)
}

/// The instruction at `pc` names only slots below `n` and instructions of a
/// program of length `len`, and does not fall off its end.
pub open spec fn insn_ok(insn: Insn, pc: int, len: int, n: int) -> bool {
    match insn {
        Insn::End => true,
        Insn::Jmp(t) => t < len,
        Insn::Split(x, y) => x < len && y < len,
        Insn::Save(slot) => slot < n && pc + 1 < len,
        Insn::Save0(slot) => slot < n && pc + 1 < len,
        Insn::Restore(slot) => slot < n && pc + 1 < len,
        Insn::RepeatGr { lo, hi, next, repeat } => next < len && repeat < n && pc + 1 < len,
        Insn::RepeatNg { lo, hi, next, repeat } => next < len && repeat < n && pc + 1 < len,
        Insn::RepeatEpsilonGr { lo, next, repeat, check } => next < len && repeat < n && check < n
            && pc + 1 < len,
        Insn::RepeatEpsilonNg { lo, next, repeat, check } => next < len && repeat < n && check < n
            && pc + 1 < len,
        Insn::Backref(slot) => slot + 1 < n && pc + 1 < len,
        Insn::Delegate { inner, inner1, start_group, end_group } => start_group <= end_group && 2
            * end_group <= n && pc + 1 < len,
        Insn::Any => pc + 1 < len,
        Insn::AnyNoNL => pc + 1 < len,
        Insn::Lit(val) => pc + 1 < len,
        Insn::FailNegativeLookAround => pc + 1 < len,
        Insn::GoBack(count) => pc + 1 < len,
        Insn::BeginAtomic => pc + 1 < len,
        Insn::EndAtomic => pc + 1 < len,
        Insn::DelegateSized(inner, size) => pc + 1 < len,
    }
}

impl Prog {
    /// The instructions, in order.
    pub closed spec fn insns(&self) -> Seq<Insn> {
        self.body@
    }

    /// Number of semantic slots that the program uses.
    pub closed spec fn spec_n_saves(&self) -> usize {
        self.n_saves
    }

    /// Every instruction is well formed, and the slots leave room for the
    /// explicit stack of a run.
    pub closed spec fn wf(&self) -> bool {
        &&& self.spec_n_saves() + 2 + MAX_STACK <= usize::MAX
        &&& forall|pc: int|
            0 <= pc < self.body@.len() ==> insn_ok(
                #[trigger] self.body@[pc],
                pc,
                self.body@.len() as int,
                self.spec_n_saves() as int,
            )
    }

    pub fn new(body: Vec<Insn>, n_saves: usize) -> (r: Prog)
        ensures
            r.insns() == body@,
            r.spec_n_saves() == n_saves,
    {
        Prog { body, n_saves }
    }

    pub fn n_saves(&self) -> (r: usize)
        ensures
            r == self.spec_n_saves(),
    {
        self.n_saves
    }

    /// Tells whether the program is well formed, which `run` asks of it.
    pub fn check(&self) -> (r: bool)
        ensures
            r == self.wf(),
    {
        if self.n_saves > usize::MAX - 2 - MAX_STACK {
            return false;
        }
        let len = self.body.len();
        let mut pc: usize = 0;
        while pc < len
            invariant
                pc <= len,
                len == self.body@.len(),
                self.n_saves + 2 + MAX_STACK <= usize::MAX,
                forall|q: int| 0 <= q < pc ==> insn_ok(#[trigger] self.body@[q], q, len as int, self.n_saves as int),
            decreases len - pc,
        {
            if !insn_is_ok(&self.body[pc], pc, len, self.n_saves) {
                assert(!insn_ok(self.body@[pc as int], pc as int, len as int, self.n_saves as int));
                return false;
            }
            pc = pc + 1;
        }
        true
    }
}

/// Exact test of `insn_ok`.
fn insn_is_ok(insn: &Insn, pc: usize, len: usize, n: usize) -> (r: bool)
    requires
        pc < len,
    ensures
        r == insn_ok(*insn, pc as int, len as int, n as int),
{
    let falls_through = pc < len - 1;
    match insn {
        Insn::End => true,
        Insn::Jmp(t) => *t < len,
        Insn::Split(x, y) => *x < len && *y < len,
        Insn::Save(slot) => *slot < n && falls_through,
        Insn::Save0(slot) => *slot < n && falls_through,
        Insn::Restore(slot) => *slot < n && falls_through,
        Insn::RepeatGr { lo, hi, next, repeat } => *next < len && *repeat < n && falls_through,
        Insn::RepeatNg { lo, hi, next, repeat } => *next < len && *repeat < n && falls_through,
        Insn::RepeatEpsilonGr { lo, next, repeat, check } => *next < len && *repeat < n && *check < n
            && falls_through,
        Insn::RepeatEpsilonNg { lo, next, repeat, check } => *next < len && *repeat < n && *check < n
            && falls_through,
        Insn::Backref(slot) => n > 0 && *slot < n - 1 && falls_through,
        Insn::Delegate { inner, inner1, start_group, end_group } => *start_group <= *end_group
            && *end_group <= n / 2 && falls_through,
        _ => falls_through,
    }
}


/// What one dispatched instruction leads to.
pub enum Step {
    /// Go on at `pc` with the input index `ix`.
    Next { pc: usize, ix: usize },
    /// The instruction failed: backtrack.
    Fail,
    /// `End` was reached.
    Matched,
    /// A push would have exceeded the bound of a stack.
    Overflow,
}

/// `lit` stands in `bytes` at `ix`.
pub open spec fn lit_at(bytes: Seq<u8>, ix: int, lit: Seq<u8>) -> bool {
    ix + lit.len() <= bytes.len() && bytes.subrange(ix, ix + lit.len()) == lit
}

/// Every backtrack frame resumes at an instruction of the program and at a
/// code-point boundary of the input.
pub open spec fn frames_ok(state: &State, len: nat, s: &str) -> bool {
    forall|d: int|
        0 <= d < state.depth() ==> #[trigger] state.frame_pc(d) < len && position_ok(s, state.frame_ix(d))
}

/// Writes to slots keep the frames, and so the frames' bounds.
pub proof fn lemma_frames_ok_same(a: &State, b: &State, len: nat, s: &str)
    requires
        frames_ok(a, len, s),
        b.same_stack(a) || b.same_frames(a),
    ensures
        frames_ok(b, len, s),
{
    assert forall|d: int| 0 <= d < b.depth() implies #[trigger] b.frame_pc(d) < len && position_ok(
        s,
        b.frame_ix(d),
    ) by {
        assert(b.frame_pc(d) == a.frame_pc(d));
        assert(b.frame_ix(d) == a.frame_ix(d));
        assert(a.frame_pc(d) < len && position_ok(s, a.frame_ix(d)));
    }
}

/// `new` is `old` with one frame pushed that resumes at `pc` and `ix`.
pub open spec fn pushed(old: &State, new: &State, pc: usize, ix: usize) -> bool {
    &&& new.wf()
    &&& new.depth() == old.depth() + 1
    &&& new.frame_pc(old.depth() as int) == pc
    &&& new.frame_ix(old.depth() as int) == ix
    &&& forall|i: int| #[trigger] new.frame_slot(old.depth() as int, i) == old.slot(i)
    &&& new.same_below(old, old.depth() as int)
    &&& new.same_slots(old)
}


/// Slot `i` after writing `v1` into `s1` and then `v2` into `s2`.
pub open spec fn after_writes(old: &State, s1: usize, v1: usize, s2: usize, v2: usize, i: int) -> usize {
    if i == s2 {
        v2
    } else if i == s1 {
        v1
    } else {
        old.slot(i)
    }
}

/// `new` is `old` with `v1` written into `s1` and `v2` into `s2`, then a
/// frame pushed that resumes at `pc` and `ix` and gives back those slots.
pub open spec fn pushed_after(
    old: &State,
    new: &State,
    s1: usize,
    v1: usize,
    s2: usize,
    v2: usize,
    pc: usize,
    ix: usize,
) -> bool {
    &&& new.depth() == old.depth() + 1
    &&& new.frame_pc(old.depth() as int) == pc
    &&& new.frame_ix(old.depth() as int) == ix
    &&& forall|i: int| #[trigger] new.frame_slot(old.depth() as int, i) == after_writes(old, s1, v1, s2, v2, i)
    &&& forall|i: int| #[trigger] new.slot(i) == after_writes(old, s1, v1, s2, v2, i)
    &&& new.same_below(old, old.depth() as int)
}

/// `new` is `old` with `v` written into slot `slot`.
pub open spec fn written(old: &State, new: &State, slot: usize, v: usize) -> bool {
    &&& new.slot(slot as int) == v
    &&& forall|i: int| i != slot ==> #[trigger] new.slot(i) == old.slot(i)
    &&& new.same_frames(old)
}

/// What running `insn` at `pc` and `ix` does to the state `old`, giving
/// `new` and the outcome `r`.
pub open spec fn dispatched(insn: Insn, pc: usize, ix: usize, s: &str, old: State, new: State, r: Step) -> bool {
    &&& !(insn is BeginAtomic) ==> new.grown() == old.grown()
    &&& dispatched_insn(insn, pc, ix, s, old, new, r)
}

/// The effect of each instruction, for `dispatched`.
pub open spec fn dispatched_insn(insn: Insn, pc: usize, ix: usize, s: &str, old: State, new: State, r: Step) -> bool {
    let bytes = s.spec_bytes();
    match insn {
        Insn::End => r is Matched && new == old,
        Insn::Any => {
            &&& new == old
            &&& r is Next || r is Fail
            &&& ix == bytes.len() ==> r is Fail
            &&& ix < bytes.len() ==> r == (Step::Next {
                pc: (pc + 1) as usize,
                ix: (ix + spec_codepoint_len(bytes[ix as int])) as usize,
            })
            &&& r matches Step::Next { pc: p, ix: i } ==> p == pc + 1 && ix < bytes.len() && i == ix
                + spec_codepoint_len(bytes[ix as int])
        },
        Insn::AnyNoNL => {
            &&& new == old
            &&& r is Next || r is Fail
            &&& ix == bytes.len() ==> r is Fail
            &&& ix < bytes.len() && bytes[ix as int] != 10 ==> r == (Step::Next {
                pc: (pc + 1) as usize,
                ix: (ix + spec_codepoint_len(bytes[ix as int])) as usize,
            })
            &&& ix < bytes.len() && bytes[ix as int] == 10 ==> r is Fail
            &&& r matches Step::Next { pc: p, ix: i } ==> p == pc + 1 && ix < bytes.len() && i == ix
                + spec_codepoint_len(bytes[ix as int])
        },
        Insn::Lit(val) => {
            &&& new == old
            &&& !lit_at(bytes, ix as int, encode_utf8(val@)) ==> r is Fail
            &&& lit_at(bytes, ix as int, encode_utf8(val@)) ==> r is Next
            &&& r is Next ==> lit_at(bytes, ix as int, encode_utf8(val@)) && r == (Step::Next {
                pc: (pc + 1) as usize,
                ix: (ix + encode_utf8(val@).len()) as usize,
            })
            &&& r is Next || r is Fail
        },
        Insn::Split(x, y) => {
            &&& r is Overflow <==> old.depth() >= old.max_depth()
            &&& r is Next ==> r == (Step::Next { pc: x, ix }) && pushed(&old, &new, y, ix)
            &&& r is Next || r is Overflow
        },
        Insn::Jmp(t) => r == (Step::Next { pc: t, ix }) && new == old,
        Insn::Save(slot) => r == (Step::Next { pc: (pc + 1) as usize, ix }) && written(&old, &new, slot, ix),
        Insn::Save0(slot) => r == (Step::Next { pc: (pc + 1) as usize, ix }) && written(&old, &new, slot, 0),
        Insn::Restore(slot) => {
            &&& new == old
            &&& position_ok(s, old.slot(slot as int)) ==> r == (Step::Next {
                pc: (pc + 1) as usize,
                ix: old.slot(slot as int),
            })
            &&& !position_ok(s, old.slot(slot as int)) ==> r is Fail
        },
        Insn::RepeatGr { lo, hi, next, repeat } => {
            let c = old.slot(repeat as int);
            if c == hi {
                r == (Step::Next { pc: next, ix }) && new == old
            } else if c == usize::MAX {
                r is Fail && new == old
            } else {
                &&& new.slot(repeat as int) == c + 1
                &&& c < lo ==> r == (Step::Next { pc: (pc + 1) as usize, ix }) && written(&old, &new, repeat, (c + 1) as usize)
                &&& c >= lo ==> (r is Overflow <==> old.depth() >= old.max_depth())
                &&& c >= lo ==> (r is Next || r is Overflow)
                &&& c >= lo && r is Next ==> r == (Step::Next { pc: (pc + 1) as usize, ix }) && pushed_after(
                    &old, &new, repeat, (c + 1) as usize, repeat, (c + 1) as usize, next, ix)
            }
        },
        Insn::RepeatNg { lo, hi, next, repeat } => {
            let c = old.slot(repeat as int);
            if c == hi {
                r == (Step::Next { pc: next, ix }) && new == old
            } else if c == usize::MAX {
                r is Fail && new == old
            } else {
                &&& new.slot(repeat as int) == c + 1
                &&& c < lo ==> r == (Step::Next { pc: (pc + 1) as usize, ix }) && written(&old, &new, repeat, (c + 1) as usize)
                &&& c >= lo ==> (r is Overflow <==> old.depth() >= old.max_depth())
                &&& c >= lo ==> (r is Next || r is Overflow)
                &&& c >= lo && r is Next ==> r == (Step::Next { pc: next, ix }) && pushed_after(
                    &old, &new, repeat, (c + 1) as usize, repeat, (c + 1) as usize, (pc + 1) as usize, ix)
            }
        },
        Insn::RepeatEpsilonGr { lo, next, repeat, check } => {
            let c = old.slot(repeat as int);
            if c > lo && old.slot(check as int) == ix {
                r is Fail && new == old
            } else if c == usize::MAX {
                r is Fail && new == old
            } else {
                &&& c < lo ==> r == (Step::Next { pc: (pc + 1) as usize, ix }) && written(&old, &new, repeat, (c + 1) as usize)
                &&& c >= lo ==> (r is Overflow <==> old.depth() >= old.max_depth())
                &&& c >= lo ==> (r is Next || r is Overflow)
                &&& c >= lo && r is Next ==> r == (Step::Next { pc: (pc + 1) as usize, ix }) && pushed_after(
                    &old, &new, repeat, (c + 1) as usize, check, ix, next, ix)
            }
        },
        Insn::RepeatEpsilonNg { lo, next, repeat, check } => {
            let c = old.slot(repeat as int);
            if c > lo && old.slot(check as int) == ix {
                r is Fail && new == old
            } else if c == usize::MAX {
                r is Fail && new == old
            } else {
                &&& c < lo ==> r == (Step::Next { pc: (pc + 1) as usize, ix }) && written(&old, &new, repeat, (c + 1) as usize)
                &&& c >= lo ==> (r is Overflow <==> old.depth() >= old.max_depth())
                &&& c >= lo ==> (r is Next || r is Overflow)
                &&& c >= lo && r is Next ==> r == (Step::Next { pc: next, ix }) && pushed_after(
                    &old, &new, repeat, (c + 1) as usize, check, ix, (pc + 1) as usize, ix)
            }
        },
        Insn::FailNegativeLookAround => {
            &&& r is Fail
            &&& new.depth() <= old.depth()
            &&& new.same_below(&old, new.depth() as int)
            &&& forall|d: int| new.depth() < d < old.depth() ==> #[trigger] old.frame_pc(d) != pc + 1
            &&& (exists|d: int| 0 <= d < old.depth() && #[trigger] old.frame_pc(d) == pc + 1) ==> new.depth()
                < old.depth() && old.frame_pc(new.depth() as int) == pc + 1
            &&& !(exists|d: int| 0 <= d < old.depth() && #[trigger] old.frame_pc(d) == pc + 1) ==> new.depth()
                == 0
        },
        Insn::GoBack(count) => {
            &&& new == old
            &&& count == 0 ==> r == (Step::Next { pc: (pc + 1) as usize, ix })
            &&& count > 0 && ix == 0 ==> r is Fail
            &&& r is Next || r is Fail
            &&& r matches Step::Next { pc: p, ix: i } ==> p == pc + 1 && i <= ix
            &&& back_by(bytes, ix as int, count as nat) matches Some(j) ==> r == (Step::Next {
                pc: (pc + 1) as usize,
                ix: j as usize,
            })
            &&& back_by(bytes, ix as int, count as nat) is None ==> r is Fail
        },
        Insn::Backref(slot) => {
            let lo = old.slot(slot as int);
            let hi = old.slot(slot + 1);
            &&& new == old
            &&& lo == usize::MAX ==> r is Fail
            &&& r is Next || r is Fail
            &&& lo != usize::MAX && lo <= hi <= bytes.len() && lit_at(bytes, ix as int, bytes.subrange(lo as int, hi as int))
                && is_char_boundary(bytes, ix + (hi - lo)) ==> r == (Step::Next {
                pc: (pc + 1) as usize,
                ix: (ix + (hi - lo)) as usize,
            })
            &&& lo <= hi <= bytes.len() && !lit_at(bytes, ix as int, bytes.subrange(lo as int, hi as int))
                ==> r is Fail
            &&& r matches Step::Next { pc: p, ix: i } ==> p == pc + 1 && lo <= hi && i == ix + (hi - lo)
                && hi <= bytes.len() && lit_at(bytes, ix as int, bytes.subrange(lo as int, hi as int))
        },
        Insn::BeginAtomic => {
            &&& r is Overflow <==> old.n_saves() + 1 + old.explicit().len() >= usize::MAX
            &&& r is Next ==> r == (Step::Next { pc: (pc + 1) as usize, ix }) && new.explicit()
                == old.explicit().push(old.depth() as usize) && new.same_stack(&old) && new.grown()
            &&& forall|i: int| 0 <= i < old.n_saves() ==> #[trigger] new.slot(i) == old.slot(i)
            &&& r is Next || r is Overflow
        },
        Insn::EndAtomic => {
            &&& old.explicit().len() == 0 ==> r is Fail && new == old
            &&& old.explicit().len() > 0 && old.explicit().last() <= old.depth() ==> r == (Step::Next {
                pc: (pc + 1) as usize,
                ix,
            }) && new.depth() == old.explicit().last() && new.same_below(&old, new.depth() as int)
                && new.explicit() == old.explicit().drop_last()
            &&& old.explicit().len() > 0 && old.explicit().last() > old.depth() ==> r is Fail
            &&& forall|i: int| 0 <= i < old.n_saves() ==> #[trigger] new.slot(i) == old.slot(i)
        },
        Insn::DelegateSized(inner, size) => {
            &&& new == old
            &&& r matches Step::Next { pc: p, ix: i } ==> p == pc + 1 && ix <= i && fwd_by(bytes, ix as int, size as nat)
                == Some(i as int)
            &&& r is Next || r is Fail
        },
        Insn::Delegate { inner, inner1, start_group, end_group } => {
            &&& new.same_frames(&old)
            &&& forall|i: int| !(2 * start_group <= i < 2 * end_group) ==> #[trigger] new.slot(i) == old.slot(i)
            &&& r matches Step::Next { pc: p, ix: i } ==> p == pc + 1
            &&& r is Next ==> groups_ordered(&new, start_group, end_group)
            &&& r is Next || r is Fail
        },
    }
}

/// Each group from `start_group` to `end_group` is either unset or an
/// ordered pair of positions.
pub open spec fn groups_ordered(st: &State, start_group: usize, end_group: usize) -> bool {
    forall|g: int|
        start_group <= g < end_group ==> (#[trigger] st.slot(2 * g) == usize::MAX && st.slot(2 * g + 1) == usize::MAX)
            || st.slot(2 * g) <= st.slot(2 * g + 1)
}

/// Whether `lit` stands in `s` at byte `ix`.
fn lit_matches(s: &str, ix: usize, lit: &str) -> (r: bool)
    requires
        ix <= s.spec_bytes().len(),
    ensures
        r == lit_at(s.spec_bytes(), ix as int, lit.spec_bytes()),
{
    let bytes = s.as_bytes();
    let lb = lit.as_bytes();
    let blen = bytes.len();
    if lb.len() > blen - ix {
        return false;
    }
    let mut k: usize = 0;
    while k < lb.len()
        invariant
            k <= lb@.len(),
            bytes@.len() == blen,
            ix + lb@.len() <= bytes@.len(),
            bytes@ == s.spec_bytes(),
            lb@ == lit.spec_bytes(),
            forall|j: int| 0 <= j < k ==> bytes@[ix + j] == lb@[j],
        decreases lb@.len() - k,
    {
        if bytes[ix + k] != lb[k] {
            assert(bytes@.subrange(ix as int, ix + lb@.len())[k as int] != lb@[k as int]);
            return false;
        }
        k = k + 1;
    }
    assert(bytes@.subrange(ix as int, ix + lb@.len()) =~= lb@);
    true
}

/// Whether the bytes `lo..hi` of `s` stand again at `ix`.
fn repeat_matches(s: &str, ix: usize, lo: usize, hi: usize) -> (r: bool)
    requires
        ix <= s.spec_bytes().len(),
        lo <= hi <= s.spec_bytes().len(),
    ensures
        r == lit_at(s.spec_bytes(), ix as int, s.spec_bytes().subrange(lo as int, hi as int)),
{
    let bytes = s.as_bytes();
    let n = hi - lo;
    let blen = bytes.len();
    if n > blen - ix {
        return false;
    }
    let ghost want = bytes@.subrange(lo as int, hi as int);
    let mut k: usize = 0;
    while k < n
        invariant
            k <= n,
            n == hi - lo,
            lo <= hi <= bytes@.len(),
            bytes@.len() == blen,
            ix + n <= bytes@.len(),
            bytes@ == s.spec_bytes(),
            want == bytes@.subrange(lo as int, hi as int),
            forall|j: int| 0 <= j < k ==> bytes@[ix + j] == want[j],
        decreases n - k,
    {
        if bytes[ix + k] != bytes[lo + k] {
            assert(bytes@.subrange(ix as int, ix + n)[k as int] != want[k as int]);
            return false;
        }
        k = k + 1;
    }
    assert(bytes@.subrange(ix as int, ix + n) =~= want);
    true
}

/// The index one code point after `ix`; `None` at the end of the input.
fn next_codepoint_ix(s: &str, ix: usize) -> (r: Option<usize>)
    requires
        position_ok(s, ix),
    ensures
        r matches Some(n) ==> position_ok(s, n) && ix < n && n == ix + spec_codepoint_len(s.spec_bytes()[ix as int]),
        ix == s.spec_bytes().len() ==> r is None,
        ix < s.spec_bytes().len() ==> r == Some((ix + spec_codepoint_len(s.spec_bytes()[ix as int])) as usize),
{
    let blen = s.as_bytes().len();
    if ix >= blen {
        return None;
    }
    let cl = codepoint_len_at(s, ix);
    Some(ix + cl)
}

/// Once `back_by` reaches the start of the input, going further back fails.
proof fn lemma_back_by_none(bytes: Seq<u8>, ix: int, k: nat, n: nat)
    requires
        k >= 1,
        k <= n,
        back_by(bytes, ix, k) is None,
    ensures
        back_by(bytes, ix, n) is None,
    decreases n - k,
{
    if k < n {
        lemma_back_by_none(bytes, ix, k + 1, n);
    }
}

/// Moves `ix` back by `count` code points; `None` when the start of the
/// input comes first.
fn go_back(s: &str, ix: usize, count: usize) -> (r: Option<usize>)
    requires
        position_ok(s, ix),
    ensures
        r matches Some(n) ==> position_ok(s, n) && n <= ix && back_by(s.spec_bytes(), ix as int, count as nat)
            == Some(n as int),
        r is None ==> back_by(s.spec_bytes(), ix as int, count as nat) is None,
        count == 0 ==> r == Some(ix),
        count > 0 && ix == 0 ==> r is None,
{
    let mut cur = ix;
    let mut k: usize = 0;
    while k < count
        invariant
            k <= count,
            position_ok(s, cur),
            cur <= ix,
            k > 0 || cur == ix,
            ix == 0 ==> k == 0,
            back_by(s.spec_bytes(), ix as int, k as nat) == Some(cur as int),
        decreases count - k,
    {
        if cur == 0 {
            proof {
                lemma_back_by_none(s.spec_bytes(), ix as int, (k + 1) as nat, count as nat);
            }
            return None;
        }
        cur = prev_codepoint_ix(s, cur);
        k = k + 1;
    }
    Some(cur)
}

/// Pops frames up to and including the nearest one that resumes at
/// `target`, or all of them when none does; tells whether one did.
fn unwind_to(state: &mut State, target: usize) -> (found: bool)
    requires
        old(state).wf(),
    ensures
        final(state).wf(),
        final(state).depth() <= old(state).depth(),
        final(state).same_below(old(state), final(state).depth() as int),
        forall|d: int|
            final(state).depth() < d < old(state).depth() ==> #[trigger] old(state).frame_pc(d) != target,
        found ==> final(state).depth() < old(state).depth() && old(state).frame_pc(
            final(state).depth() as int,
        ) == target,
        !found ==> final(state).depth() == 0 && forall|d: int|
            0 <= d < old(state).depth() ==> #[trigger] old(state).frame_pc(d) != target,
{
    let ghost pre = *old(state);
    while state.backtrack_count() > 0
        invariant
            state.wf(),
            pre == *old(state),
            state.depth() <= pre.depth(),
            state.same_below(&pre, state.depth() as int),
            forall|d: int| state.depth() <= d < pre.depth() ==> #[trigger] pre.frame_pc(d) != target,
        decreases state.depth(),
    {
        let (popped_pc, _) = state.pop();
        assert(popped_pc == pre.frame_pc(state.depth() as int));
        assert(state.same_below(&pre, state.depth() as int));
        if popped_pc == target {
            return true;
        }
    }
    false
}

/// Runs the instruction at `pc` with the input index `ix`.
#[verifier::rlimit(100)]
pub fn step(prog: &Prog, s: &str, state: &mut State, pc: usize, ix: usize) -> (r: Step)
    requires
        prog.wf(),
        pc < prog.insns().len(),
        position_ok(s, ix),
        old(state).wf(),
        old(state).n_saves() == prog.spec_n_saves(),
        frames_ok(old(state), prog.insns().len(), s),
    ensures
        final(state).wf(),
        final(state).n_saves() == old(state).n_saves(),
        final(state).max_depth() == old(state).max_depth(),
        frames_ok(final(state), prog.insns().len(), s),
        r matches Step::Next { pc: p, ix: i } ==> p < prog.insns().len() && position_ok(s, i),
        dispatched(prog.insns()[pc as int], pc, ix, s, *old(state), *final(state), r),
        r is Matched <==> prog.insns()[pc as int] is End,
{
    let ghost insn = prog.insns()[pc as int];
    let n_insns = prog.body.len();
    let input_len = s.as_bytes().len();
    assert(pc < n_insns);
    assert(insn_ok(insn, pc as int, prog.insns().len() as int, prog.spec_n_saves() as int));
    match &prog.body[pc] {
        Insn::End => {
            Step::Matched
        },
        Insn::Any => {
            let next_pc = pc + 1;
            match next_codepoint_ix(s, ix) {
                Some(n) => Step::Next { pc: next_pc, ix: n },
                None => Step::Fail,
            }
        },
        Insn::AnyNoNL => {
            let next_pc = pc + 1;
            let bytes = s.as_bytes();
            if ix < bytes.len() && bytes[ix] != 10u8 {
                match next_codepoint_ix(s, ix) {
                    Some(n) => Step::Next { pc: next_pc, ix: n },
                    None => Step::Fail,
                }
            } else {
                Step::Fail
            }
        },
        Insn::Lit(val) => {
            let lit = val.as_str();
            if lit_matches(s, ix, lit) {
                let n = ix + lit.as_bytes().len();
                proof {
                    vstd::utf8::encode_utf8_valid_utf8(s@);
                    vstd::utf8::encode_utf8_valid_utf8(val@);
                    lemma_run_boundary(s.spec_bytes(), ix as int, lit.spec_bytes());
                }
                Step::Next { pc: pc + 1, ix: n }
            } else {
                Step::Fail
            }
        },
        Insn::Split(x, y) => {
            let r = match push_tracked(prog, s, state, *y, ix) {
                Ok(()) => Step::Next { pc: *x, ix },
                Err(_) => Step::Overflow,
            };
            r
        },
        Insn::Jmp(t) => Step::Next { pc: *t, ix },
        Insn::Save(slot) => {
            save_tracked(prog, s, state, *slot, ix);
            Step::Next { pc: pc + 1, ix }
        },
        Insn::Save0(slot) => {
            save_tracked(prog, s, state, *slot, 0);
            Step::Next { pc: pc + 1, ix }
        },
        Insn::Restore(slot) => {
            let v = state.get(*slot);
            if v <= input_len && s.is_char_boundary(v) {
                Step::Next { pc: pc + 1, ix: v }
            } else {
                Step::Fail
            }
        },
        Insn::RepeatGr { lo, hi, next, repeat } => {
            let c = state.get(*repeat);
            if c == *hi {
                Step::Next { pc: *next, ix }
            } else if c == usize::MAX {
                Step::Fail
            } else {
                save_tracked(prog, s, state, *repeat, c + 1);
                if c >= *lo {
                    match push_tracked(prog, s, state, *next, ix) {
                        Ok(()) => Step::Next { pc: pc + 1, ix },
                        Err(_) => Step::Overflow,
                    }
                } else {
                    Step::Next { pc: pc + 1, ix }
                }
            }
        },
        Insn::RepeatNg { lo, hi, next, repeat } => {
            let c = state.get(*repeat);
            if c == *hi {
                Step::Next { pc: *next, ix }
            } else if c == usize::MAX {
                Step::Fail
            } else {
                save_tracked(prog, s, state, *repeat, c + 1);
                if c >= *lo {
                    match push_tracked(prog, s, state, pc + 1, ix) {
                        Ok(()) => Step::Next { pc: *next, ix },
                        Err(_) => Step::Overflow,
                    }
                } else {
                    Step::Next { pc: pc + 1, ix }
                }
            }
        },
        Insn::RepeatEpsilonGr { lo, next, repeat, check } => {
            let c = state.get(*repeat);
            if c > *lo && state.get(*check) == ix {
                Step::Fail
            } else if c == usize::MAX {
                Step::Fail
            } else {
                save_tracked(prog, s, state, *repeat, c + 1);
                if c >= *lo {
                    save_tracked(prog, s, state, *check, ix);
                    match push_tracked(prog, s, state, *next, ix) {
                        Ok(()) => Step::Next { pc: pc + 1, ix },
                        Err(_) => Step::Overflow,
                    }
                } else {
                    Step::Next { pc: pc + 1, ix }
                }
            }
        },
        Insn::RepeatEpsilonNg { lo, next, repeat, check } => {
            let c = state.get(*repeat);
            if c > *lo && state.get(*check) == ix {
                Step::Fail
            } else if c == usize::MAX {
                Step::Fail
            } else {
                save_tracked(prog, s, state, *repeat, c + 1);
                if c >= *lo {
                    save_tracked(prog, s, state, *check, ix);
                    match push_tracked(prog, s, state, pc + 1, ix) {
                        Ok(()) => Step::Next { pc: *next, ix },
                        Err(_) => Step::Overflow,
                    }
                } else {
                    Step::Next { pc: pc + 1, ix }
                }
            }
        },
        Insn::GoBack(count) => match go_back(s, ix, *count) {
            Some(n) => Step::Next { pc: pc + 1, ix: n },
            None => Step::Fail,
        },
        Insn::FailNegativeLookAround => {
            let found = unwind_to(state, pc + 1);
            proof {
                if !found {
                    assert(!(exists|d: int| 0 <= d < old(state).depth() && #[trigger] old(state).frame_pc(d) == pc + 1));
                }
            }
            Step::Fail
        },
        Insn::Backref(slot) => {
            let lo = state.get(*slot);
            if lo == usize::MAX {
                return Step::Fail;
            }
            let hi = state.get(*slot + 1);
            if lo <= hi && hi <= input_len && repeat_matches(s, ix, lo, hi) {
                let n = ix + (hi - lo);
                if s.is_char_boundary(n) {
                    Step::Next { pc: pc + 1, ix: n }
                } else {
                    Step::Fail
                }
            } else {
                Step::Fail
            }
        },
        Insn::BeginAtomic => {
            let count = state.backtrack_count();
            let ghost before = *state;
            let pushed_ok = state.stack_push(count);
            proof {
                lemma_frames_ok_same(&before, state, prog.insns().len(), s);
            }
            match pushed_ok {
                Ok(()) => Step::Next { pc: pc + 1, ix },
                Err(_) => Step::Overflow,
            }
        },
        Insn::EndAtomic => {
            if state.explicit_depth() == 0 {
                return Step::Fail;
            }
            let count = state.stack_pop();
            if count <= state.backtrack_count() {
                state.backtrack_cut(count);
                Step::Next { pc: pc + 1, ix }
            } else {
                Step::Fail
            }
        },
        Insn::DelegateSized(inner, size) => match advance_sized(&**inner, s, ix, *size) {
            Some(n) => Step::Next { pc: pc + 1, ix: n },
            None => Step::Fail,
        },
        Insn::Delegate { inner, inner1, start_group, end_group } => {
            let ghost before = *state;
            proof {
                state.lemma_bounds();
            }
            let res = delegate_step(&**inner, inner1, *start_group, *end_group, s, state, ix);
            proof {
                lemma_frames_ok_same(&before, state, prog.insns().len(), s);
            }
            match res {
                Some(n) => Step::Next { pc: pc + 1, ix: n },
                None => Step::Fail,
            }
        },
    }
}

/// Checks that the inner pattern matches at `ix`, then moves `ix` on by
/// `size` code points.
fn advance_sized(re: &Regex, s: &str, ix: usize, size: usize) -> (r: Option<usize>)
    requires
        position_ok(s, ix),
    ensures
        r matches Some(n) ==> position_ok(s, n) && ix <= n && fwd_by(s.spec_bytes(), ix as int, size as nat)
            == Some(n as int),
{
    if !delegate_is_match(re, s, ix) {
        return None;
    }
    let mut cur = ix;
    let mut k: usize = 0;
    while k < size
        invariant
            position_ok(s, cur),
            ix <= cur,
            k <= size,
            fwd_by(s.spec_bytes(), ix as int, k as nat) == Some(cur as int),
        decreases size - k,
    {
        match next_codepoint_ix(s, cur) {
            Some(n) => cur = n,
            None => return None,
        }
        k = k + 1;
    }
    Some(cur)
}

/// Runs an inner pattern at `ix` (one code point earlier with `inner1`,
/// when there is one and `ix > 0`), writes its groups into the slots of
/// groups `start_group..end_group`, and returns the index after the match.
fn delegate_step(
    inner: &Regex,
    inner1: &Option<Box<Regex>>,
    start_group: usize,
    end_group: usize,
    s: &str,
    state: &mut State,
    ix: usize,
) -> (r: Option<usize>)
    requires
        old(state).wf(),
        start_group <= end_group,
        2 * end_group <= old(state).n_saves(),
        position_ok(s, ix),
        s.spec_bytes().len() <= usize::MAX,
    ensures
        final(state).wf(),
        final(state).same_frames(old(state)),
        forall|i: int| !(2 * start_group <= i < 2 * end_group) ==> #[trigger] final(state).slot(i) == old(state).slot(i),
        r matches Some(n) ==> position_ok(s, n),
        r is Some ==> groups_ordered(final(state), start_group, end_group),
{
    let mut at = ix;
    let re: &Regex = match inner1 {
        Some(r1) if ix > 0 => {
            at = prev_codepoint_ix(s, ix);
            &**r1
        },
        _ => inner,
    };
    if start_group == end_group {
        match delegate_find(re, s, at) {
            Some(e) => Some(at + e),
            None => None,
        }
    } else {
        let ngroups = end_group - start_group;
        match delegate_captures(re, s, at, ngroups) {
            Some((e, groups)) => {
                proof {
                    old(state).lemma_bounds();
                }
                write_groups(state, start_group, at, &groups);
                proof {
                    assert forall|g: int| start_group <= g < end_group implies (#[trigger] state.slot(2 * g)
                        == usize::MAX && state.slot(2 * g + 1) == usize::MAX) || state.slot(2 * g) <= state.slot(
                        2 * g + 1,
                    ) by {
                        let j = g - start_group;
                        assert(group_written(state, start_group, at, groups@[j], j));
                    }
                }
                Some(at + e)
            },
            None => None,
        }
    }
}

/// `State::save`, keeping the frames' bounds.
fn save_tracked(prog: &Prog, s: &str, state: &mut State, slot: usize, val: usize)
    requires
        old(state).wf(),
        slot < old(state).n_saves(),
        frames_ok(old(state), prog.insns().len(), s),
    ensures
        frames_ok(final(state), prog.insns().len(), s),
        final(state).wf(),
        final(state).slot(slot as int) == val,
        forall|i: int| i != slot ==> #[trigger] final(state).slot(i) == old(state).slot(i),
        final(state).same_frames(old(state)),
        final(state).explicit() == old(state).explicit(),
        op_done(*old(state), StateOp::Save(slot, val), *final(state)),
{
    let ghost before = *state;
    state.save(slot, val);
    proof {
        lemma_frames_ok_same(&before, state, prog.insns().len(), s);
    }
}

/// `State::push` of a frame that resumes at an instruction of `prog` and a
/// boundary of `s`, keeping the frames' bounds.
fn push_tracked(prog: &Prog, s: &str, state: &mut State, pc: usize, ix: usize) -> (r: Result<(), Error>)
    requires
        old(state).wf(),
        frames_ok(old(state), prog.insns().len(), s),
        pc < prog.insns().len(),
        position_ok(s, ix),
    ensures
        frames_ok(final(state), prog.insns().len(), s),
        final(state).wf(),
        r.is_err() <==> old(state).depth() >= old(state).max_depth(),
        r.is_err() ==> *final(state) == *old(state),
        r.is_ok() ==> pushed(old(state), final(state), pc, ix),
        r.is_ok() ==> final(state).explicit() == old(state).explicit(),
        r.is_ok() ==> op_done(*old(state), StateOp::Push, *final(state)),
{
    let ghost before = *state;
    let r = state.push(pc, ix);
    proof {
        if r.is_ok() {
            assert forall|d: int| 0 <= d < state.depth() implies #[trigger] state.frame_pc(d) < prog.insns().len()
                && position_ok(s, state.frame_ix(d)) by {
                if d < before.depth() {
                    assert(state.frame_pc(d) == before.frame_pc(d));
                    assert(before.frame_pc(d) < prog.insns().len());
                }
            }
        }
    }
    r
}

/// A configuration of the machine: program counter, input index, state.
pub type Config = (usize, usize, State);

/// After the outcome `r` of an instruction, with the state `mid`, the
/// machine goes on in configuration `b`: at the instruction's successor, or,
/// when it failed, at the frame that the failure handler pops.
pub open spec fn resumes(r: Step, mid: State, b: Config) -> bool {
    match r {
        Step::Next { pc, ix } => b.0 == pc && b.1 == ix && b.2 == mid,
        Step::Fail => {
            &&& mid.depth() > 0
            &&& op_done(mid, StateOp::Pop, b.2)
            &&& b.0 == mid.frame_pc(b.2.depth() as int)
            &&& b.1 == mid.frame_ix(b.2.depth() as int)
        },
        _ => false,
    }
}

/// One move of the machine from `a` to `b`: dispatch the instruction at
/// `a`'s program counter, then go on.
pub open spec fn moves(prog: &Prog, s: &str, a: Config, b: Config) -> bool {
    exists|r: Step, mid: State|
        #[trigger] dispatched(prog.insns()[a.0 as int], a.0, a.1, s, a.2, mid, r) && resumes(r, mid, b)
}

/// The run that starts at instruction 0 and index `pos`, with every slot
/// unset and both stacks empty, passes through the configurations `h`.
pub open spec fn valid_run(prog: &Prog, s: &str, pos: usize, max_stack: usize, h: Seq<Config>) -> bool {
    &&& h.len() >= 1
    &&& h[0].0 == 0
    &&& h[0].1 == pos
    &&& h[0].2.depth() == 0
    &&& h[0].2.max_depth() == max_stack
    &&& h[0].2.n_saves() == prog.spec_n_saves()
    &&& h[0].2.explicit() == Seq::<usize>::empty()
    &&& !h[0].2.grown()
    &&& forall|i: int| 0 <= i < prog.spec_n_saves() ==> #[trigger] h[0].2.slot(i) == usize::MAX
    &&& forall|k: int| 0 <= k < h.len() - 1 ==> #[trigger] moves(prog, s, h[k], h[k + 1])
    &&& forall|k: int| 0 <= k < h.len() ==> position_ok(s, (#[trigger] h[k]).1)
}

/// The last configuration of `h` dispatches an instruction whose outcome is
/// `r` with the state `mid`.
pub open spec fn ends_with(prog: &Prog, s: &str, h: Seq<Config>, mid: State, r: Step) -> bool {
    let c = h.last();
    dispatched(prog.insns()[c.0 as int], c.0, c.1, s, c.2, mid, r)
}

/// The run reaches `End`, and `v` is the slot vector there.
pub open spec fn run_matches(prog: &Prog, s: &str, pos: usize, max_stack: usize, v: Seq<usize>) -> bool {
    exists|h: Seq<Config>|
        #[trigger] valid_run(prog, s, pos, max_stack, h) && prog.insns()[h.last().0 as int] is End && v.len()
            == h.last().2.result_len() && forall|i: int| 0 <= i < v.len() ==> v[i] == #[trigger] h.last().2.slot(i)
}

/// The run fails at an instruction with no frame left to pop.
pub open spec fn run_fails(prog: &Prog, s: &str, pos: usize, max_stack: usize) -> bool {
    exists|h: Seq<Config>, mid: State|
        #[trigger] valid_run(prog, s, pos, max_stack, h) && #[trigger] ends_with(prog, s, h, mid, Step::Fail)
            && mid.depth() == 0
}

/// The run makes `n` moves without coming to an end.
pub open spec fn run_goes_on(prog: &Prog, s: &str, pos: usize, max_stack: usize, n: nat) -> bool {
    exists|h: Seq<Config>| #[trigger] valid_run(prog, s, pos, max_stack, h) && h.len() == n + 1
}

/// The run reaches an instruction whose push overflows a stack.
pub open spec fn run_overflows(prog: &Prog, s: &str, pos: usize, max_stack: usize) -> bool {
    exists|h: Seq<Config>, mid: State|
        #[trigger] valid_run(prog, s, pos, max_stack, h) && #[trigger] ends_with(prog, s, h, mid, Step::Overflow)
}

/// One event of a traced run.
#[derive(Debug, Clone, Copy, PartialEq, Eq, Structural)]
pub enum TraceEvent {
    /// The instruction at `pc` is dispatched with the input index `ix`.
    Dispatch { ix: usize, pc: usize },
    /// An instruction pushed a frame; `depth` frames are now on the stack.
    Push { depth: usize },
    /// An instruction discarded frames; `depth` frames are left.
    Cut { depth: usize },
    /// An instruction failed.
    Fail,
    /// The failure handler popped a frame; `depth` frames are left.
    Pop { depth: usize },
}

/// A run followed by one more move is a run.
proof fn extend_run(prog: &Prog, s: &str, pos: usize, max_stack: usize, h: Seq<Config>, r: Step, mid: State, c: Config)
    requires
        valid_run(prog, s, pos, max_stack, h),
        ends_with(prog, s, h, mid, r),
        resumes(r, mid, c),
        position_ok(s, c.1),
    ensures
        valid_run(prog, s, pos, max_stack, h.push(c)),
{
    let h2 = h.push(c);
    assert forall|k: int| 0 <= k < h2.len() implies position_ok(s, (#[trigger] h2[k]).1) by {
        if k < h.len() {
            assert(h2[k] == h[k]);
        }
    }
    assert(moves(prog, s, h.last(), c));
    assert forall|k: int| 0 <= k < h2.len() - 1 implies #[trigger] moves(prog, s, h2[k], h2[k + 1]) by {
        if k < h.len() - 1 {
            assert(h2[k] == h[k] && h2[k + 1] == h[k + 1]);
        } else {
            assert(h2[k] == h.last() && h2[k + 1] == c);
        }
    }
}

/// Runs `prog` on `s` from byte `pos`, with a bound on the backtrack stack
/// and a budget of dispatch steps. When `options` holds `OPTION_TRACE`, the
/// events of the run are appended to `events`. Returns the slot vector at
/// `End`, `None` when every alternative failed, or the error that stopped
/// the run.
pub fn run_with_limits(
    prog: &Prog,
    s: &str,
    pos: usize,
    options: u32,
    max_stack: usize,
    max_steps: u64,
    events: &mut Vec<TraceEvent>,
) -> (r: Result<Option<Vec<usize>>, Error>)
    requires
        prog.wf(),
        position_ok(s, pos),
        prog.spec_n_saves() + 2 + max_stack <= usize::MAX,
    ensures
        r matches Ok(Some(v)) ==> run_matches(prog, s, pos, max_stack, v@),
        r == Ok::<Option<Vec<usize>>, Error>(None) ==> prog.insns().len() == 0 || run_fails(prog, s, pos, max_stack),
        r == Err::<Option<Vec<usize>>, Error>(Error::StackOverflow) ==> run_overflows(prog, s, pos, max_stack),
        r == Err::<Option<Vec<usize>>, Error>(Error::StepLimitExceeded) ==> run_goes_on(prog, s, pos, max_stack, max_steps as nat),
        options & OPTION_TRACE == 0 ==> final(events)@ == old(events)@,
        prog.insns().len() == 0 ==> r == Ok::<Option<Vec<usize>>, Error>(None),
{
    let n_insns = prog.body.len();
    if n_insns == 0 {
        return Ok(None);
    }
    let tracing = options & OPTION_TRACE != 0;
    let mut state = State::new(prog.n_saves(), max_stack, options);
    let mut pc: usize = 0;
    let mut ix: usize = pos;
    let mut steps: u64 = 0;
    let ghost mut hist: Seq<Config> = seq![(0usize, pos, state)];
    loop
        invariant
            valid_run(prog, s, pos, max_stack, hist),
            hist.last() == (pc, ix, state),
            hist.len() == steps + 1,
            steps <= max_steps,
            prog.wf(),
            n_insns == prog.insns().len(),
            pc < n_insns,
            position_ok(s, ix),
            state.wf(),
            state.n_saves() == prog.spec_n_saves(),
            frames_ok(&state, prog.insns().len(), s),
            tracing == (options & OPTION_TRACE != 0),
            !tracing ==> events@ == old(events)@,
        decreases max_steps - steps,
    {
        if steps >= max_steps {
            assert(valid_run(prog, s, pos, max_stack, hist));
            return Err(Error::StepLimitExceeded);
        }
        steps = steps + 1;
        if tracing {
            events.push(TraceEvent::Dispatch { ix, pc });
        }
        let before = state.backtrack_count();
        let r = step(prog, s, &mut state, pc, ix);
        let ghost mid = state;
        assert(ends_with(prog, s, hist, mid, r));
        match r {
            Step::Next { pc: p, ix: i } => {
                proof {
                    let c = (p, i, state);
                    assert(resumes(r, mid, c));
                    extend_run(prog, s, pos, max_stack, hist, r, mid, c);
                    hist = hist.push(c);
                    assert forall|d: int| 0 <= d < state.depth() implies #[trigger] state.frame_pc(d)
                        < prog.insns().len() && position_ok(s, state.frame_ix(d)) by {
                        assert(state.frame_pc(d) == mid.frame_pc(d));
                        assert(mid.frame_pc(d) < prog.insns().len());
                    }
                }
                if tracing {
                    let after = state.backtrack_count();
                    if after > before {
                        events.push(TraceEvent::Push { depth: after });
                    } else if after < before {
                        events.push(TraceEvent::Cut { depth: after });
                    }
                }
                pc = p;
                ix = i;
            },
            Step::Matched => {
                assert(prog.insns()[hist.last().0 as int] is End);
                let v = state.into_slots();
                assert(valid_run(prog, s, pos, max_stack, hist));
                return Ok(Some(v));
            },
            Step::Overflow => {
                return Err(Error::StackOverflow);
            },
            Step::Fail => {
                if tracing {
                    let after = state.backtrack_count();
                    if after < before {
                        events.push(TraceEvent::Cut { depth: after });
                    }
                    events.push(TraceEvent::Fail);
                }
                if state.backtrack_count() == 0 {
                    return Ok(None);
                }
                let (p, i) = state.pop();
                proof {
                    let c = (p, i, state);
                    assert(resumes(r, mid, c));
                    extend_run(prog, s, pos, max_stack, hist, r, mid, c);
                    hist = hist.push(c);
                    assert forall|d: int| 0 <= d < state.depth() implies #[trigger] state.frame_pc(d)
                        < prog.insns().len() && position_ok(s, state.frame_ix(d)) by {
                        assert(state.frame_pc(d) == mid.frame_pc(d));
                        assert(mid.frame_pc(d) < prog.insns().len());
                    }
                }
                if tracing {
                    events.push(TraceEvent::Pop { depth: state.backtrack_count() });
                }
                pc = p;
                ix = i;
            },
        }
    }
}

/// Runs `prog` on `s` from byte `pos` with the default bounds.
pub fn run(prog: &Prog, s: &str, pos: usize, options: u32) -> (r: Result<Option<Vec<usize>>, Error>)
    requires
        prog.wf(),
        position_ok(s, pos),
    ensures
        r matches Ok(Some(v)) ==> run_matches(prog, s, pos, MAX_STACK, v@),
        r == Ok::<Option<Vec<usize>>, Error>(None) ==> prog.insns().len() == 0 || run_fails(prog, s, pos, MAX_STACK),
        r == Err::<Option<Vec<usize>>, Error>(Error::StackOverflow) ==> run_overflows(prog, s, pos, MAX_STACK),
        r == Err::<Option<Vec<usize>>, Error>(Error::StepLimitExceeded) ==> run_goes_on(prog, s, pos, MAX_STACK, MAX_STEPS as nat),
        prog.insns().len() == 0 ==> r == Ok::<Option<Vec<usize>>, Error>(None),
{
    let mut events: Vec<TraceEvent> = Vec::new();
    run_with_limits(prog, s, pos, options, MAX_STACK, MAX_STEPS, &mut events)
}

/// Runs `prog` on `s` from byte `pos` with tracing on, and returns the
/// result with the events of the run.
pub fn trace(prog: &Prog, s: &str, pos: usize) -> (r: (Result<Option<Vec<usize>>, Error>, Vec<TraceEvent>))
    requires
        prog.wf(),
        position_ok(s, pos),
    ensures
        r.0 matches Ok(Some(v)) ==> run_matches(prog, s, pos, MAX_STACK, v@),
        r.0 == Ok::<Option<Vec<usize>>, Error>(None) ==> prog.insns().len() == 0 || run_fails(prog, s, pos, MAX_STACK),
        r.0 == Err::<Option<Vec<usize>>, Error>(Error::StackOverflow) ==> run_overflows(prog, s, pos, MAX_STACK),
        r.0 == Err::<Option<Vec<usize>>, Error>(Error::StepLimitExceeded) ==> run_goes_on(prog, s, pos, MAX_STACK, MAX_STEPS as nat),
        prog.insns().len() == 0 ==> r.0 == Ok::<Option<Vec<usize>>, Error>(None),
{
    let mut events: Vec<TraceEvent> = Vec::new();
    let r = run_with_limits(prog, s, pos, OPTION_TRACE, MAX_STACK, MAX_STEPS, &mut events);
    (r, events)
}

/// The spans of inner group `j` are in the slots of outer group
/// `start_group + j`, offset by `at`; both slots are unset for a group that
/// did not take part.
pub open spec fn group_written(st: &State, start_group: usize, at: usize, g: Option<(usize, usize)>, j: int) -> bool {
    let slot = 2 * (start_group + j);
    match g {
        Some((a, b)) => st.slot(slot) == at + a && st.slot(slot + 1) == at + b,
        None => st.slot(slot) == usize::MAX && st.slot(slot + 1) == usize::MAX,
    }
}

/// Writes the group spans that an inner match reported, relative to `at`,
/// into the slots of the outer groups from `start_group` on.
pub fn write_groups(state: &mut State, start_group: usize, at: usize, groups: &Vec<Option<(usize, usize)>>)
    requires
        old(state).wf(),
        2 * (start_group + groups@.len()) <= old(state).n_saves(),
        forall|j: int| 0 <= j < groups@.len() ==> (#[trigger] groups@[j] matches Some((a, b)) ==> a <= b
            && at + b <= usize::MAX),
    ensures
        final(state).wf(),
        final(state).same_frames(old(state)),
        forall|j: int| 0 <= j < groups@.len() ==> group_written(final(state), start_group, at, #[trigger] groups@[j], j),
        forall|i: int| !(2 * start_group <= i < 2 * (start_group + groups@.len())) ==> #[trigger] final(state).slot(i)
            == old(state).slot(i),
{
    proof {
        old(state).lemma_bounds();
    }
    let n = groups.len();
    let mut i: usize = 0;
    while i < n
        invariant
            i <= n,
            n == groups@.len(),
            2 * (start_group + n) <= state.n_saves(),
            state.n_saves() == old(state).n_saves(),
            state.n_saves() + 2 <= usize::MAX,
            forall|j: int| 0 <= j < n ==> (#[trigger] groups@[j] matches Some((a, b)) ==> a <= b && at + b <= usize::MAX),
            state.wf(),
            state.same_frames(old(state)),
            forall|j: int| 0 <= j < i ==> group_written(state, start_group, at, #[trigger] groups@[j], j),
            forall|k: int| !(2 * start_group <= k < 2 * (start_group + i)) ==> #[trigger] state.slot(k) == old(state).slot(k),
        decreases n - i,
    {
        let slot = (start_group + i) * 2;
        let ghost before = *state;
        match groups[i] {
            Some((a, b)) => {
                state.save(slot, at + a);
                state.save(slot + 1, at + b);
            },
            None => {
                state.save(slot, usize::MAX);
                state.save(slot + 1, usize::MAX);
            },
        }
        proof {
            assert forall|j: int| 0 <= j < i + 1 implies group_written(state, start_group, at, #[trigger] groups@[j], j) by {
                if j < i {
                    assert(group_written(&before, start_group, at, groups@[j], j));
                    assert(state.slot(2 * (start_group + j)) == before.slot(2 * (start_group + j)));
                    assert(state.slot(2 * (start_group + j) + 1) == before.slot(2 * (start_group + j) + 1));
                }
            }
            assert forall|k: int| !(2 * start_group <= k < 2 * (start_group + i + 1)) implies #[trigger] state.slot(k)
                == old(state).slot(k) by {
                assert(state.slot(k) == before.slot(k));
            }
        }
        i = i + 1;
    }
}

/// Relies on `regex::Regex::is_match`, run on the input from byte `ix` on.
/// The delegated patterns are anchored, so this tells whether the pattern
/// matches at `ix`; nothing is stated of an opaque pattern.
#[verifier::external_body]
fn delegate_is_match(re: &Regex, s: &str, ix: usize) -> (r: bool)
    requires
        position_ok(s, ix),
{
    re.is_match(&s[ix..])
}

/// Relies on `regex::Regex::find`, run on the input from byte `ix` on: the
/// end of the match, relative to `ix`. `Match::end` lies within the haystack
/// and on a code-point boundary of it, hence of `s`, as `ix` is one.
#[verifier::external_body]
fn delegate_find(re: &Regex, s: &str, ix: usize) -> (r: Option<usize>)
    requires
        position_ok(s, ix),
    ensures
        r matches Some(e) ==> ix + e <= s.spec_bytes().len() && is_char_boundary(s.spec_bytes(), ix + e),
{
    re.find(&s[ix..]).map(|m| m.end())
}

/// Relies on `regex::Regex::captures`, run on the input from byte `ix` on:
/// the end of the overall match and the spans of groups `1..=n` (`None` for
/// a group that did not take part), relative to `ix`. `Captures::get` gives
/// spans with start <= end, within the haystack; the overall match ends on a
/// code-point boundary of the haystack, hence of `s`, as `ix` is one.
#[verifier::external_body]
fn delegate_captures(re: &Regex, s: &str, ix: usize, n: usize) -> (r: Option<(usize, Vec<Option<(usize, usize)>>)>)
    requires
        position_ok(s, ix),
    ensures
        r matches Some((e, groups)) ==> {
            &&& ix + e <= s.spec_bytes().len()
            &&& is_char_boundary(s.spec_bytes(), ix + e)
            &&& groups@.len() == n
            &&& forall|j: int| 0 <= j < n ==> (#[trigger] groups@[j] matches Some((a, b)) ==> a <= b
                && ix + b <= s.spec_bytes().len())
        },
{
    re.captures(&s[ix..]).map(|caps| (
        caps.get_match().end(),
        (1..=n).map(|i| caps.get(i).map(|m| (m.start(), m.end()))).collect(),
    ))
}

} // verus!
