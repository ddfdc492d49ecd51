//! Execution state of the machine: the slot vector, the backtrack stack and
//! the copy-on-write undo log that lets a pop rewind slot writes.
//!
//! Conceptually every backtrack frame holds a full copy of the slot vector.
//! Copying it on every push would be costly, so only the first write to a
//! slot after a push is logged (with the value it replaced); a pop replays
//! the log of the current frame backwards.
use vstd::prelude::*;
use crate::error::Error;

verus! {

/// Value of slot `i` in the vector `v`; slots past the end read as unset.
pub open spec fn slot_of(v: Seq<usize>, i: int) -> usize {
    if 0 <= i < v.len() {
        v[i]
    } else {
        usize::MAX
    }
}

/// The prior value recorded by the earliest entry of `log` for slot `i`.
pub open spec fn first_prior(log: Seq<(usize, usize)>, i: int) -> Option<usize>
    decreases log.len(),
{
    if log.len() == 0 {
        None
    } else if log[0].0 == i {
        Some(log[0].1)
    } else {
        first_prior(log.subrange(1, log.len() as int), i)
    }
}

/// Value of slot `i` once the writes recorded in `log` are undone on `cur`.
pub open spec fn rewound(cur: Seq<usize>, log: Seq<(usize, usize)>, i: int) -> usize {
    match first_prior(log, i) {
        Some(v) => v,
        None => slot_of(cur, i),
    }
}

/// Offset in the undo log where the entries made at depth `d` begin.
pub open spec fn seg_start(stack: Seq<(usize, usize, usize)>, d: int) -> int
    decreases d,
{
    if d <= 0 {
        0
    } else {
        seg_start(stack, d - 1) + stack[d - 1].2
    }
}

/// The earliest entry for a slot decides: entries of `a` shadow those of `b`.
pub proof fn lemma_first_prior_concat(a: Seq<(usize, usize)>, b: Seq<(usize, usize)>, i: int)
    ensures
        first_prior(a + b, i) == (match first_prior(a, i) {
            Some(v) => Some(v),
            None => first_prior(b, i),
        }),
    decreases a.len(),
{
    if a.len() > 0 {
        assert((a + b).subrange(1, (a + b).len() as int) =~= a.subrange(1, a.len() as int) + b);
        lemma_first_prior_concat(a.subrange(1, a.len() as int), b, i);
    } else {
        assert(a + b =~= b);
    }
}

/// A slot has a recorded prior value exactly when some entry names it.
pub proof fn lemma_first_prior_some(log: Seq<(usize, usize)>, i: int)
    ensures
        first_prior(log, i).is_some() <==> exists|j: int| 0 <= j < log.len() && log[j].0 == i,
    decreases log.len(),
{
    if log.len() > 0 {
        let rest = log.subrange(1, log.len() as int);
        lemma_first_prior_some(rest, i);
        if first_prior(log, i).is_some() && log[0].0 != i {
            let j = choose|j: int| 0 <= j < rest.len() && rest[j].0 == i;
            assert(log[j + 1].0 == i);
        }
        if exists|j: int| 0 <= j < log.len() && log[j].0 == i {
            let j = choose|j: int| 0 <= j < log.len() && log[j].0 == i;
            if j > 0 {
                assert(rest[j - 1].0 == i);
            }
        }
    }
}

/// Undoing `a` after `b` is undoing their concatenation.
pub proof fn lemma_rewound_concat(
    cur: Seq<usize>,
    mid: Seq<usize>,
    a: Seq<(usize, usize)>,
    b: Seq<(usize, usize)>,
    i: int,
)
    requires
        slot_of(mid, i) == rewound(cur, b, i),
    ensures
        rewound(mid, a, i) == rewound(cur, a + b, i),
{
    lemma_first_prior_concat(a, b, i);
}

/// Segments start in order.
pub proof fn lemma_seg_start_mono(st: Seq<(usize, usize, usize)>, a: int, b: int)
    requires
        0 <= a <= b <= st.len(),
    ensures
        0 <= seg_start(st, a) <= seg_start(st, b),
    decreases b,
{
    if a < b {
        lemma_seg_start_mono(st, a, b - 1);
    } else if b > 0 {
        lemma_seg_start_mono(st, b - 1, b - 1);
    }
}

/// `seg_start` reads only the frames below `d`.
pub proof fn lemma_seg_start_prefix(a: Seq<(usize, usize, usize)>, b: Seq<(usize, usize, usize)>, d: int)
    requires
        d <= a.len(),
        d <= b.len(),
        forall|j: int| 0 <= j < d ==> a[j] == b[j],
    ensures
        seg_start(a, d) == seg_start(b, d),
    decreases d,
{
    if d > 0 {
        lemma_seg_start_prefix(a, b, d - 1);
    }
}

/// Whether `e` is an entry of `log`.
pub open spec fn occurs(log: Seq<(usize, usize)>, e: (usize, usize)) -> bool {
    exists|k: int| 0 <= k < log.len() && log[k] == e
}

/// Whether some entry of `log` in `from..to` names `slot`.
fn appears(log: &Vec<(usize, usize)>, from: usize, to: usize, slot: usize) -> (r: bool)
    requires
        from <= to <= log@.len(),
    ensures
        r == exists|j: int| from <= j < to && #[trigger] log@[j].0 == slot,
{
    let mut k: usize = from;
    while k < to
        invariant
            from <= k <= to <= log@.len(),
            forall|j: int| from <= j < k ==> #[trigger] log@[j].0 != slot,
        decreases to - k,
    {
        if log[k].0 == slot {
            return true;
        }
        k = k + 1;
    }
    false
}

/// Folds the entries from `lo` on into the range that begins at `start`,
/// keeping an entry only when no entry kept before it names the same slot.
/// Undoing the folded range gives what undoing the whole tail gave.
fn fold_log(log: &mut Vec<(usize, usize)>, start: usize, lo: usize)
    requires
        start <= lo <= old(log)@.len(),
    ensures
        start <= final(log)@.len() <= old(log)@.len(),
        final(log)@.subrange(0, start as int) == old(log)@.subrange(0, start as int),
        forall|i: int|
            #[trigger] first_prior(final(log)@.subrange(start as int, final(log)@.len() as int), i)
                == first_prior(old(log)@.subrange(start as int, old(log)@.len() as int), i),
        forall|j: int| 0 <= j < final(log)@.len() ==> occurs(old(log)@, #[trigger] final(log)@[j]),
{
    let ghost orig = log@;
    let len = log.len();
    let mut w: usize = lo;
    let mut r: usize = lo;
    assert forall|j: int| 0 <= j < w implies occurs(orig, #[trigger] log@[j]) by {
        assert(log@[j] == orig[j]);
        assert(0 <= j < len && log@[j] == orig[j]);
    }
    while r < len
        invariant
            start <= lo <= w <= r <= len,
            len == orig.len(),
            log@.len() == len,
            forall|j: int| 0 <= j < start ==> log@[j] == orig[j],
            forall|j: int| r <= j < len ==> log@[j] == orig[j],
            forall|j: int| 0 <= j < w ==> occurs(orig, #[trigger] log@[j]),
            forall|i: int|
                #[trigger] first_prior(log@.subrange(start as int, w as int), i)
                    == first_prior(orig.subrange(start as int, r as int), i),
        decreases len - r,
    {
        let e = log[r];
        let ghost kept = log@.subrange(start as int, w as int);
        let ghost seen = orig.subrange(start as int, r as int);
        assert(orig.subrange(start as int, r + 1) =~= seen + seq![e]);
        assert(seq![e].subrange(1, 1) =~= Seq::<(usize, usize)>::empty());
        assert(first_prior(Seq::<(usize, usize)>::empty(), e.0 as int).is_none());
        if appears(log, start, w, e.0) {
            proof {
                let j = choose|j: int| start <= j < w && #[trigger] log@[j].0 == e.0;
                assert(kept[j - start].0 == e.0);
                lemma_first_prior_some(kept, e.0 as int);
                assert forall|i: int| #[trigger] first_prior(kept, i) == first_prior(seen + seq![e], i) by {
                    lemma_first_prior_concat(seen, seq![e], i);
                    assert(first_prior(Seq::<(usize, usize)>::empty(), i).is_none());
                    if i != e.0 {
                        assert(first_prior(seq![e], i) == first_prior(seq![e].subrange(1, 1), i));
                    }
                }
            }
        } else {
            proof {
                lemma_first_prior_some(kept, e.0 as int);
            }
            log.set(w, e);
            proof {
                assert(log@.subrange(start as int, w + 1) =~= kept + seq![e]);
                assert forall|i: int| #[trigger] first_prior(kept + seq![e], i) == first_prior(seen + seq![e], i) by {
                    lemma_first_prior_concat(seen, seq![e], i);
                    lemma_first_prior_concat(kept, seq![e], i);
                }
                assert(log@[w as int] == orig[r as int]);
            }
            w = w + 1;
        }
        r = r + 1;
    }
    let ghost folded = log@;
    log.truncate(w);
    assert(log@.subrange(0, start as int) =~= orig.subrange(0, start as int));
    assert(log@.subrange(start as int, w as int) =~= folded.subrange(start as int, w as int));
    assert forall|j: int| 0 <= j < log@.len() implies occurs(orig, #[trigger] log@[j]) by {
        assert(log@[j] == folded[j]);
    }
}

/// One operation on the state, for laws over sequences of operations.
pub enum StateOp {
    Push,
    Pop,
    Save(usize, usize),
    Cut(usize),
}

/// `b` is what the operation `op` makes of `a`, as the operations' own
/// contracts state it.
pub open spec fn op_done(a: State, op: StateOp, b: State) -> bool {
    &&& b.wf()
    &&& match op {
        StateOp::Push => {
            &&& b.depth() == a.depth() + 1
            &&& forall|i: int| #[trigger] b.frame_slot(a.depth() as int, i) == a.slot(i)
            &&& b.same_below(&a, a.depth() as int)
            &&& b.same_slots(&a)
        },
        StateOp::Pop => {
            &&& a.depth() > 0
            &&& b.depth() + 1 == a.depth()
            &&& forall|i: int| #[trigger] b.slot(i) == a.frame_slot(b.depth() as int, i)
            &&& b.same_below(&a, b.depth() as int)
        },
        StateOp::Save(slot, v) => {
            &&& b.slot(slot as int) == v
            &&& forall|i: int| i != slot ==> #[trigger] b.slot(i) == a.slot(i)
            &&& b.same_frames(&a)
        },
        StateOp::Cut(count) => {
            &&& b.depth() == count
            &&& b.same_below(&a, count as int)
            &&& b.same_slots(&a)
        },
    }
}

/// The operations `ops` lead from each state of `states` to the next.
pub open spec fn op_chain(states: Seq<State>, ops: Seq<StateOp>) -> bool {
    &&& states.len() == ops.len() + 1
    &&& forall|k: int| 0 <= k < ops.len() ==> op_done(states[k], #[trigger] ops[k], states[k + 1])
}

/// No state of the chain lies below the depth it started at.
pub open spec fn stays_above(states: Seq<State>, depth: nat) -> bool {
    forall|k: int| 0 <= k < states.len() ==> (#[trigger] states[k]).depth() >= depth
}

proof fn lemma_balanced_prefix(states: Seq<State>, ops: Seq<StateOp>, k: int)
    requires
        op_chain(states, ops),
        stays_above(states, states[0].depth()),
        forall|j: int| 0 <= j < ops.len() ==> !(#[trigger] ops[j] is Cut),
        forall|j: int| 0 <= j < ops.len() && #[trigger] ops[j] is Save ==> states[j].depth() > states[0].depth(),
        0 <= k < states.len(),
    ensures
        states[k].depth() == states[0].depth() ==> forall|i: int| #[trigger] states[k].slot(i) == states[0].slot(i),
        states[k].depth() > states[0].depth() ==> forall|i: int|
            #[trigger] states[k].frame_slot(states[0].depth() as int, i) == states[0].slot(i),
    decreases k,
{
    if k > 0 {
        let d0 = states[0].depth() as int;
        lemma_balanced_prefix(states, ops, k - 1);
        let a = states[k - 1];
        let b = states[k];
        assert(op_done(a, ops[k - 1], b));
        assert(a.depth() >= d0 && b.depth() >= d0);
        match ops[k - 1] {
            StateOp::Push => {
                if a.depth() > d0 {
                    assert forall|i: int| #[trigger] b.frame_slot(d0, i) == states[0].slot(i) by {
                        assert(b.frame_pc(d0) == a.frame_pc(d0));
                        assert(b.frame_slot(d0, i) == a.frame_slot(d0, i));
                    }
                }
            },
            StateOp::Pop => {
                if b.depth() > d0 {
                    assert forall|i: int| #[trigger] b.frame_slot(d0, i) == states[0].slot(i) by {
                        assert(b.frame_pc(d0) == a.frame_pc(d0));
                        assert(b.frame_slot(d0, i) == a.frame_slot(d0, i));
                    }
                }
            },
            StateOp::Save(slot, v) => {
                assert forall|i: int| #[trigger] b.frame_slot(d0, i) == states[0].slot(i) by {
                    assert(b.frame_pc(d0) == a.frame_pc(d0));
                    assert(b.frame_slot(d0, i) == a.frame_slot(d0, i));
                }
            },
            StateOp::Cut(count) => {},
        }
    }
}

/// Stack/undo balance: a sequence of pushes, pops and slot writes that never
/// pops below the depth it started at, writes slots only above that depth,
/// and ends at it, leaves every slot as it found it.
pub proof fn lemma_balanced_restores(states: Seq<State>, ops: Seq<StateOp>)
    requires
        op_chain(states, ops),
        stays_above(states, states[0].depth()),
        forall|j: int| 0 <= j < ops.len() ==> !(#[trigger] ops[j] is Cut),
        forall|j: int| 0 <= j < ops.len() && #[trigger] ops[j] is Save ==> states[j].depth() > states[0].depth(),
        states.last().depth() == states[0].depth(),
    ensures
        forall|i: int| #[trigger] states.last().slot(i) == states[0].slot(i),
{
    lemma_balanced_prefix(states, ops, states.len() - 1);
}

/// First write wins: after a push, however many writes go to a slot, the
/// pop of that frame gives the slot back the value it held at the push.
pub proof fn lemma_first_write_restored(states: Seq<State>, ops: Seq<StateOp>)
    requires
        op_chain(states, ops),
        ops.len() >= 2,
        ops[0] is Push,
        ops.last() is Pop,
        forall|j: int| 1 <= j < ops.len() - 1 ==> #[trigger] ops[j] is Save,
    ensures
        forall|i: int| #[trigger] states.last().slot(i) == states[0].slot(i),
{
    let d0 = states[0].depth();
    assert(op_done(states[0], ops[0], states[1]));
    assert forall|k: int| 1 <= k < states.len() - 1 implies (#[trigger] states[k]).depth() == d0 + 1 by {
        lemma_saves_keep_depth(states, ops, k);
    }
    assert(op_done(states[states.len() - 2], ops[ops.len() - 1], states[states.len() - 1]));
    assert(stays_above(states, d0));
    lemma_balanced_restores(states, ops);
}

proof fn lemma_saves_keep_depth(states: Seq<State>, ops: Seq<StateOp>, k: int)
    requires
        op_chain(states, ops),
        ops.len() >= 2,
        ops[0] is Push,
        forall|j: int| 1 <= j < ops.len() - 1 ==> #[trigger] ops[j] is Save,
        1 <= k < states.len() - 1,
    ensures
        states[k].depth() == states[0].depth() + 1,
    decreases k,
{
    assert(op_done(states[k - 1], ops[k - 1], states[k]));
    if k > 1 {
        lemma_saves_keep_depth(states, ops, k - 1);
    }
}

/// Frames below the depth a chain started at are untouched while the chain
/// stays at or above that depth, whatever it pushes, pops, writes or cuts.
pub proof fn lemma_frames_below_kept(states: Seq<State>, ops: Seq<StateOp>, k: int)
    requires
        op_chain(states, ops),
        stays_above(states, states[0].depth()),
        0 <= k < states.len(),
    ensures
        states[k].same_below(&states[0], states[0].depth() as int),
    decreases k,
{
    if k > 0 {
        let d0 = states[0].depth() as int;
        lemma_frames_below_kept(states, ops, k - 1);
        let a = states[k - 1];
        let b = states[k];
        assert(op_done(a, ops[k - 1], b));
        assert(b.depth() >= d0);
        assert forall|e: int| 0 <= e < d0 implies {
            &&& #[trigger] b.frame_pc(e) == states[0].frame_pc(e)
            &&& b.frame_ix(e) == states[0].frame_ix(e)
            &&& forall|i: int| #[trigger] b.frame_slot(e, i) == states[0].frame_slot(e, i)
            &&& b.frame_explicit(e) == states[0].frame_explicit(e)
        } by {
            assert(b.frame_pc(e) == a.frame_pc(e));
            assert(b.frame_explicit(e) == a.frame_explicit(e));
            assert(b.frame_ix(e) == a.frame_ix(e));
            assert forall|i: int| #[trigger] b.frame_slot(e, i) == states[0].frame_slot(e, i) by {
                assert(b.frame_slot(e, i) == a.frame_slot(e, i));
            }
        }
    }
}

/// Atomic cut preserves rewindability: whatever a segment that starts at
/// depth `d` does (pushes, pops, slot writes, cuts back to `d` or above),
/// the pop that afterwards takes the stack below `d` gives every slot the
/// value it held when that lower frame was pushed, before the segment began.
pub proof fn lemma_cut_keeps_rewind(states: Seq<State>, ops: Seq<StateOp>)
    requires
        op_chain(states, ops),
        ops.len() >= 1,
        states[0].depth() > 0,
        stays_above(states.drop_last(), states[0].depth()),
        ops.last() is Pop,
        states.last().depth() + 1 == states[0].depth(),
    ensures
        forall|i: int|
            #[trigger] states.last().slot(i) == states[0].frame_slot(states[0].depth() - 1, i),
{
    let n = ops.len() as int;
    let d0 = states[0].depth() as int;
    let pre = states.drop_last();
    assert forall|k: int| 0 <= k < n - 1 implies op_done(pre[k], #[trigger] ops.drop_last()[k], pre[k + 1]) by {
        assert(op_done(states[k], ops[k], states[k + 1]));
    }
    assert(op_chain(pre, ops.drop_last()));
    lemma_frames_below_kept(pre, ops.drop_last(), n - 1);
    let a = states[n - 1];
    assert(op_done(a, ops[n - 1], states[n]));
    assert forall|i: int| #[trigger] states.last().slot(i) == states[0].frame_slot(d0 - 1, i) by {
        assert(states.last().slot(i) == a.frame_slot(d0 - 1, i));
        assert(a.frame_pc(d0 - 1) == states[0].frame_pc(d0 - 1));
        assert(a.frame_slot(d0 - 1, i) == states[0].frame_slot(d0 - 1, i));
    }
}

pub struct State {
    saves: Vec<usize>,
    /// Backtrack frames: program counter, input index, and the number of
    /// undo-log entries made at the depth below the frame.
    stack: Vec<(usize, usize, usize)>,
    oldsave: Vec<(usize, usize)>,
    nsave: usize,
    explicit_sp: usize,
    max_stack: usize,
    options: u32,
    /// Whether the slot vector has been extended to host the explicit stack.
    grown: bool,
    /// The slot vector as it stood at each push.
    snapshots: Ghost<Seq<Seq<usize>>>,
}

impl State {
    /// Value of slot `i` now.
    pub closed spec fn slot(&self, i: int) -> usize {
        slot_of(self.saves@, i)
    }

    /// Number of frames on the backtrack stack.
    pub closed spec fn depth(&self) -> nat {
        self.stack@.len()
    }

    /// Program counter saved in frame `d`.
    pub closed spec fn frame_pc(&self, d: int) -> usize {
        self.stack@[d].0
    }

    /// Input index saved in frame `d`.
    pub closed spec fn frame_ix(&self, d: int) -> usize {
        self.stack@[d].1
    }

    /// Value that slot `i` gets back when frame `d` is popped: its value at
    /// the push of that frame.
    pub closed spec fn frame_slot(&self, d: int, i: int) -> usize {
        slot_of(self.snapshots@[d], i)
    }

    /// Number of slots that the program uses; the explicit stack lies above.
    pub closed spec fn n_saves(&self) -> nat {
        self.explicit_sp as nat
    }

    /// Bound on the backtrack stack and on the explicit stack.
    pub closed spec fn max_depth(&self) -> nat {
        self.max_stack as nat
    }

    pub closed spec fn opts(&self) -> u32 {
        self.options
    }

    /// Contents of the explicit stack at the push of frame `d`, bottom first.
    pub closed spec fn frame_explicit(&self, d: int) -> Seq<usize> {
        let snap = self.snapshots@[d];
        snap.subrange(self.explicit_sp + 1, slot_of(snap, self.explicit_sp as int) as int)
    }

    /// Contents of the explicit stack, bottom first.
    pub closed spec fn explicit(&self) -> Seq<usize> {
        self.saves@.subrange(self.explicit_sp + 1, self.saves@[self.explicit_sp as int] as int)
    }

    /// The slots that frame `d` takes back are what undoing the writes made
    /// above it gives.
    closed spec fn frame_ok(&self, d: int) -> bool {
        let st = self.stack@;
        let next = if d + 1 < st.len() {
            self.snapshots@[d + 1]
        } else {
            self.saves@
        };
        let end = if d + 1 < st.len() {
            seg_start(st, d + 2)
        } else {
            self.oldsave@.len() as int
        };
        let seg = self.oldsave@.subrange(seg_start(st, d + 1), end);
        &&& forall|i: int| rewound(next, seg, i) == #[trigger] slot_of(self.snapshots@[d], i)
        &&& self.explicit_sp < slot_of(self.snapshots@[d], self.explicit_sp as int)
        &&& slot_of(self.snapshots@[d], self.explicit_sp as int) <= self.saves@.len()
        &&& slot_of(self.snapshots@[d], self.explicit_sp as int) <= self.snapshots@[d].len()
    }

    pub closed spec fn wf(&self) -> bool {
        let st = self.stack@;
        &&& self.snapshots@.len() == st.len()
        &&& st.len() <= self.max_stack
        &&& forall|d: int| 0 <= d <= st.len() ==> 0 <= #[trigger] seg_start(st, d) <= self.oldsave@.len()
        &&& forall|d: int| 0 <= d < st.len() ==> seg_start(st, d) <= #[trigger] seg_start(st, d + 1)
        &&& seg_start(st, st.len() as int) + self.nsave == self.oldsave@.len()
        &&& forall|j: int| 0 <= j < self.oldsave@.len() ==> (#[trigger] self.oldsave@[j]).0 < self.saves@.len()
        &&& forall|d: int| 0 <= d < st.len() ==> #[trigger] self.frame_ok(d)
        &&& self.explicit_sp < self.saves@.len()
        &&& self.explicit_sp < self.saves@[self.explicit_sp as int] <= self.saves@.len()
        &&& self.explicit_sp + 2 + self.max_stack <= usize::MAX
    }

    /// Length of the slot vector, explicit stack included.
    pub closed spec fn len(&self) -> nat {
        self.saves@.len()
    }

    /// Whether an explicit-stack push has extended the slot vector.
    pub closed spec fn grown(&self) -> bool {
        self.grown
    }

    /// Length of the slot vector that a run returns: the program's slots,
    /// and the explicit stack's cells once an atomic group has used them.
    pub open spec fn result_len(&self) -> nat {
        if self.grown() {
            self.len()
        } else {
            self.n_saves()
        }
    }

    /// Frames below `d` and the bounds agree with those of `other`.
    pub open spec fn same_below(&self, other: &State, d: int) -> bool {
        &&& self.grown() == other.grown()
        &&& self.n_saves() == other.n_saves()
        &&& self.max_depth() == other.max_depth()
        &&& self.opts() == other.opts()
        &&& forall|e: int| 0 <= e < d ==> {
            &&& #[trigger] self.frame_pc(e) == other.frame_pc(e)
            &&& self.frame_ix(e) == other.frame_ix(e)
            &&& forall|i: int| #[trigger] self.frame_slot(e, i) == other.frame_slot(e, i)
            &&& self.frame_explicit(e) == other.frame_explicit(e)
        }
    }

    /// Every slot holds what it holds in `other`.
    pub open spec fn same_slots(&self, other: &State) -> bool {
        forall|i: int| #[trigger] self.slot(i) == other.slot(i)
    }

    /// Frames and bounds are unchanged, and so is whether the slot vector
    /// was extended.
    pub open spec fn same_frames(&self, other: &State) -> bool {
        &&& self.grown() == other.grown()
        &&& self.depth() == other.depth()
        &&& self.n_saves() == other.n_saves()
        &&& self.max_depth() == other.max_depth()
        &&& self.opts() == other.opts()
        &&& forall|d: int| 0 <= d < self.depth() ==> {
            &&& #[trigger] self.frame_pc(d) == other.frame_pc(d)
            &&& self.frame_ix(d) == other.frame_ix(d)
            &&& forall|i: int| #[trigger] self.frame_slot(d, i) == other.frame_slot(d, i)
            &&& self.frame_explicit(d) == other.frame_explicit(d)
        }
    }

    /// Frames and bounds are unchanged.
    pub open spec fn same_stack(&self, other: &State) -> bool {
        &&& self.depth() == other.depth()
        &&& self.n_saves() == other.n_saves()
        &&& self.max_depth() == other.max_depth()
        &&& self.opts() == other.opts()
        &&& forall|d: int| 0 <= d < self.depth() ==> {
            &&& #[trigger] self.frame_pc(d) == other.frame_pc(d)
            &&& self.frame_ix(d) == other.frame_ix(d)
            &&& forall|i: int| #[trigger] self.frame_slot(d, i) == other.frame_slot(d, i)
            &&& self.frame_explicit(d) == other.frame_explicit(d)
        }
    }

    /// The slot counts leave room for the explicit stack in a `usize`.
    pub proof fn lemma_bounds(&self)
        requires
            self.wf(),
        ensures
            self.n_saves() + 2 + self.max_depth() <= usize::MAX,
            self.n_saves() < self.len(),
    {
    }

    /// Creates the state of a fresh run: every slot unset, both stacks empty.
    pub fn new(n_saves: usize, max_stack: usize, options: u32) -> (r: State)
        requires
            n_saves + 2 + max_stack <= usize::MAX,
        ensures
            r.wf(),
            r.depth() == 0,
            r.n_saves() == n_saves,
            r.max_depth() == max_stack,
            r.opts() == options,
            r.explicit() == Seq::<usize>::empty(),
            !r.grown(),
            r.len() == n_saves + 1,
            forall|i: int| 0 <= i < n_saves ==> #[trigger] r.slot(i) == usize::MAX,
    {
        let mut saves: Vec<usize> = Vec::new();
        let mut k: usize = 0;
        while k < n_saves
            invariant
                k <= n_saves,
                saves@.len() == k,
                forall|i: int| 0 <= i < k ==> saves@[i] == usize::MAX,
            decreases n_saves - k,
        {
            saves.push(usize::MAX);
            k = k + 1;
        }
        saves.push(n_saves + 1);
        let r = State {
            saves,
            stack: Vec::new(),
            oldsave: Vec::new(),
            nsave: 0,
            explicit_sp: n_saves,
            max_stack,
            options,
            grown: false,
            snapshots: Ghost(Seq::empty()),
        };
        assert(r.explicit() =~= Seq::<usize>::empty());
        assert(seg_start(r.stack@, 0) == 0);
        r
    }

    /// Pushes a backtrack frame that resumes at `pc` and `ix` with the slot
    /// vector as it is now.
    pub fn push(&mut self, pc: usize, ix: usize) -> (r: Result<(), Error>)
        requires
            old(self).wf(),
        ensures
            final(self).wf(),
            r.is_err() <==> old(self).depth() >= old(self).max_depth(),
            r.is_err() ==> r == Err::<(), Error>(Error::StackOverflow) && *final(self) == *old(self),
            r.is_ok() ==> {
                &&& final(self).depth() == old(self).depth() + 1
                &&& final(self).frame_pc(old(self).depth() as int) == pc
                &&& final(self).frame_ix(old(self).depth() as int) == ix
                &&& forall|i: int| #[trigger] final(self).frame_slot(old(self).depth() as int, i) == old(self).slot(i)
                &&& final(self).same_below(old(self), old(self).depth() as int)
                &&& final(self).same_slots(old(self))
            },
            r.is_ok() ==> op_done(*old(self), StateOp::Push, *final(self)),
            r.is_ok() ==> final(self).explicit() == old(self).explicit(),
            r.is_ok() ==> final(self).frame_explicit(old(self).depth() as int) == old(self).explicit(),
    {
        if self.stack.len() < self.max_stack {
            let ghost st = self.stack@;
            let ghost pre = *self;
            assert(self.frame_ok(0) || st.len() == 0);
            self.stack.push((pc, ix, self.nsave));
            self.nsave = 0;
            self.snapshots = Ghost(self.snapshots@.push(self.saves@));
            proof {
                let st2 = self.stack@;
                assert forall|d: int| 0 <= d <= st.len() implies #[trigger] seg_start(st2, d) == seg_start(st, d) by {
                    lemma_seg_start_prefix(st2, st, d);
                }
                assert(st2[st.len() as int].2 == pre.nsave);
                assert(seg_start(st2, st2.len() as int) == seg_start(st2, st.len() as int) + st2[st.len() as int].2);
                assert(seg_start(st2, st2.len() as int) == self.oldsave@.len());
                assert forall|d: int| 0 <= d < st2.len() implies #[trigger] self.frame_ok(d) by {
                    if d < st.len() {
                        assert(pre.frame_ok(d));
                        if d + 2 <= st.len() {
                            assert(seg_start(st2, d + 2) == seg_start(st, d + 2));
                        }
                    } else {
                        assert(self.oldsave@.subrange(self.oldsave@.len() as int, self.oldsave@.len() as int)
                            =~= Seq::<(usize, usize)>::empty());
                    }
                }
                assert(forall|d: int| 0 <= d <= st2.len() ==> 0 <= #[trigger] seg_start(st2, d) <= self.oldsave@.len());
            }
            Ok(())
        } else {
            Err(Error::StackOverflow)
        }
    }

    /// Pops the top frame: every slot takes back its value at the push of
    /// that frame, and the frame's program counter and index are returned.
    pub fn pop(&mut self) -> (r: (usize, usize))
        requires
            old(self).wf(),
            old(self).depth() > 0,
        ensures
            final(self).wf(),
            final(self).depth() == old(self).depth() - 1,
            r == (old(self).frame_pc(final(self).depth() as int), old(self).frame_ix(final(self).depth() as int)),
            forall|i: int| #[trigger] final(self).slot(i) == old(self).frame_slot(final(self).depth() as int, i),
            final(self).same_below(old(self), final(self).depth() as int),
            op_done(*old(self), StateOp::Pop, *final(self)),
            final(self).explicit() == old(self).frame_explicit(final(self).depth() as int),
    {
        let ghost pre = *self;
        let ghost orig = self.oldsave@;
        let ghost osaves = self.saves@;
        let ghost st = self.stack@;
        let ghost top = st.len() - 1;
        let n = self.nsave;
        let mut k: usize = 0;
        assert(pre.frame_ok(top));
        while k < n
            invariant
                k <= n,
                n == pre.nsave,
                pre.wf(),
                self.stack@ == st,
                self.explicit_sp == pre.explicit_sp,
                self.max_stack == pre.max_stack,
                self.options == pre.options,
                self.grown == pre.grown,
                self.snapshots@ == pre.snapshots@,
                orig == pre.oldsave@,
                osaves == pre.saves@,
                st == pre.stack@,
                self.oldsave@ =~= orig.subrange(0, orig.len() - k),
                self.saves@.len() == osaves.len(),
                forall|i: int| #[trigger] slot_of(self.saves@, i) == rewound(osaves, orig.subrange(orig.len() - k, orig.len() as int), i),
            decreases n - k,
        {
            let e = self.oldsave.pop().unwrap();
            let ghost cur = self.saves@;
            assert(e == orig[orig.len() - k - 1]);
            assert(e.0 < osaves.len());
            self.saves.set(e.0, e.1);
            k = k + 1;
            proof {
                let tail = orig.subrange(orig.len() - k, orig.len() as int);
                let rest = orig.subrange(orig.len() - k + 1, orig.len() as int);
                assert(tail =~= seq![e] + rest);
                assert(seq![e].subrange(1, 1) =~= Seq::<(usize, usize)>::empty());
                assert(first_prior(Seq::<(usize, usize)>::empty(), e.0 as int).is_none());
                assert forall|i: int| #[trigger] slot_of(self.saves@, i) == rewound(osaves, tail, i) by {
                    lemma_first_prior_concat(seq![e], rest, i);
                    assert(slot_of(cur, i) == rewound(osaves, rest, i));
                    assert(first_prior(Seq::<(usize, usize)>::empty(), i).is_none());
                    if i == e.0 {
                        assert(first_prior(seq![e], i) == Some(e.1));
                    } else {
                        assert(first_prior(seq![e], i) == first_prior(seq![e].subrange(1, 1), i));
                        assert(first_prior(seq![e], i).is_none());
                    }
                }
            }
        }
        let (pc, ix, nsave) = self.stack.pop().unwrap();
        self.nsave = nsave;
        self.snapshots = Ghost(self.snapshots@.drop_last());
        proof {
            let st2 = self.stack@;
            assert forall|d: int| 0 <= d <= st2.len() implies #[trigger] seg_start(st2, d) == seg_start(st, d)
                && seg_start(st, d) <= self.oldsave@.len() by {
                lemma_seg_start_prefix(st2, st, d);
                lemma_seg_start_mono(st, d, top);
            }
            assert(orig.subrange(orig.len() - n, orig.len() as int) =~= orig.subrange(seg_start(st, top + 1), orig.len() as int));
            assert forall|i: int| #[trigger] slot_of(self.saves@, i) == slot_of(pre.snapshots@[top], i) by {
            }
            assert forall|d: int| 0 <= d < st2.len() implies #[trigger] self.frame_ok(d) by {
                assert(pre.frame_ok(d));
                lemma_seg_start_mono(st, d + 1, d + 2);
                if d + 2 <= top {
                    lemma_seg_start_mono(st, d + 2, top);
                }
                let end = seg_start(st, d + 2);
                assert(self.oldsave@.subrange(seg_start(st, d + 1), end) =~= orig.subrange(seg_start(st, d + 1), end));
                if d + 1 == st2.len() {
                    assert forall|i: int| rewound(self.saves@, orig.subrange(seg_start(st, d + 1), end), i)
                        == #[trigger] slot_of(self.snapshots@[d], i) by {
                        assert(slot_of(self.saves@, i) == slot_of(pre.snapshots@[top], i));
                    }
                } else {
                    assert(seg_start(st2, d + 2) == seg_start(st, d + 2));
                }
            }
            assert(slot_of(self.saves@, self.explicit_sp as int) == slot_of(pre.snapshots@[top], self.explicit_sp as int));
            assert forall|j: int| 0 <= j < self.oldsave@.len() implies (#[trigger] self.oldsave@[j]).0 < self.saves@.len() by {
                assert(self.oldsave@[j] == orig[j]);
            }
            let snap = pre.snapshots@[top];
            let esp = self.explicit_sp as int;
            assert(pre.frame_ok(top));
            assert(self.saves@[esp] == slot_of(snap, esp));
            let sp = slot_of(snap, esp) as int;
            assert forall|k: int| 0 <= k < sp - esp - 1 implies #[trigger] self.explicit()[k] == pre.frame_explicit(top)[k] by {
                assert(slot_of(self.saves@, esp + 1 + k) == slot_of(snap, esp + 1 + k));
            }
            assert(self.explicit() =~= pre.frame_explicit(top));
        }
        (pc, ix)
    }

    /// Whether the current frame has already logged a write to `slot`.
    fn logged(&self, slot: usize) -> (r: bool)
        requires
            self.wf(),
        ensures
            r == exists|j: int|
                seg_start(self.stack@, self.stack@.len() as int) <= j < self.oldsave@.len()
                    && #[trigger] self.oldsave@[j].0 == slot,
    {
        let len = self.oldsave.len();
        let n = self.nsave;
        let mut k: usize = 0;
        while k < n
            invariant
                k <= n,
                self.wf(),
                n == self.nsave,
                len == self.oldsave@.len(),
                forall|j: int| len - k <= j < len ==> #[trigger] self.oldsave@[j].0 != slot,
            decreases n - k,
        {
            if self.oldsave[len - k - 1].0 == slot {
                return true;
            }
            k = k + 1;
        }
        false
    }

    /// Writes `val` into `slot`, logging the value it replaces unless the
    /// current frame already logged a write to that slot.
    fn log_write(&mut self, slot: usize, val: usize)
        requires
            old(self).wf(),
            slot < old(self).len(),
            slot == old(self).explicit_sp ==> old(self).explicit_sp < val <= old(self).len(),
        ensures
            final(self).wf(),
            final(self).len() == old(self).len(),
            final(self).explicit_sp == old(self).explicit_sp,
            final(self).saves@ == old(self).saves@.update(slot as int, val),
            final(self).same_frames(old(self)),
    {
        let ghost pre = *self;
        let ghost st = self.stack@;
        let ghost top = st.len() - 1;
        let ghost base = seg_start(st, st.len() as int);
        if self.logged(slot) {
            self.saves.set(slot, val);
            proof {
                assert forall|d: int| 0 <= d < st.len() implies #[trigger] self.frame_ok(d) by {
                    assert(pre.frame_ok(d));
                    if d == top {
                        let seg = self.oldsave@.subrange(base, self.oldsave@.len() as int);
                        let j = choose|j: int| base <= j < self.oldsave@.len() && #[trigger] self.oldsave@[j].0 == slot;
                        assert(seg[j - base].0 == slot);
                        lemma_first_prior_some(seg, slot as int);
                        assert forall|i: int| rewound(self.saves@, seg, i) == #[trigger] slot_of(self.snapshots@[d], i) by {
                            assert(rewound(self.saves@, seg, i) == rewound(pre.saves@, seg, i));
                        }
                    }
                }
            }
        } else {
            let prior = self.saves[slot];
            self.oldsave.push((slot, prior));
            let l = self.oldsave.len();
            assert(self.nsave + 1 == l - base);
            self.nsave = self.nsave + 1;
            assert(self.nsave == l - base);
            self.saves.set(slot, val);
            proof {
                let e = (slot, prior);
                assert forall|d: int| 0 <= d < st.len() implies #[trigger] self.frame_ok(d) by {
                    assert(pre.frame_ok(d));
                    lemma_seg_start_mono(st, d + 1, st.len() as int);
                    if d == top {
                        let seg = pre.oldsave@.subrange(base, pre.oldsave@.len() as int);
                        assert(self.oldsave@.subrange(base, l as int) =~= seg + seq![e]);
                        lemma_first_prior_some(seg, slot as int);
                        assert forall|i: int| rewound(self.saves@, seg + seq![e], i) == #[trigger] slot_of(self.snapshots@[d], i) by {
                            lemma_first_prior_concat(seg, seq![e], i);
                            assert(seq![e].subrange(1, 1) =~= Seq::<(usize, usize)>::empty());
                            assert(first_prior(Seq::<(usize, usize)>::empty(), i).is_none());
                            if i != slot {
                                assert(first_prior(seq![e], i) == first_prior(seq![e].subrange(1, 1), i));
                            }
                        }
                    } else {
                        lemma_seg_start_mono(st, d + 2, st.len() as int);
                        let end = seg_start(st, d + 2);
                        assert(self.oldsave@.subrange(seg_start(st, d + 1), end)
                            =~= pre.oldsave@.subrange(seg_start(st, d + 1), end));
                    }
                }
                assert forall|j: int| 0 <= j < self.oldsave@.len() implies (#[trigger] self.oldsave@[j]).0 < self.saves@.len() by {
                    if j < pre.oldsave@.len() {
                        assert(self.oldsave@[j] == pre.oldsave@[j]);
                    }
                }
            }
        }
    }

    /// Writes `val` into the program slot `slot`. Only the first write to a
    /// slot after a push is logged, so a pop gives back the value that the
    /// slot held at that push however often it was written since.
    pub fn save(&mut self, slot: usize, val: usize)
        requires
            old(self).wf(),
            slot < old(self).n_saves(),
        ensures
            final(self).wf(),
            final(self).slot(slot as int) == val,
            forall|i: int| i != slot ==> #[trigger] final(self).slot(i) == old(self).slot(i),
            final(self).same_frames(old(self)),
            final(self).explicit() == old(self).explicit(),
            final(self).len() == old(self).len(),
            op_done(*old(self), StateOp::Save(slot, val), *final(self)),
    {
        self.log_write(slot, val);
        assert(self.explicit() =~= old(self).explicit());
    }

    /// Following the frames from `d` up to the top, the slots that frame `d`
    /// takes back are what undoing every write logged above it gives.
    proof fn lemma_chain(&self, d: int, i: int)
        requires
            self.wf(),
            0 <= d < self.stack@.len(),
        ensures
            slot_of(self.snapshots@[d], i) == rewound(
                self.saves@,
                self.oldsave@.subrange(seg_start(self.stack@, d + 1), self.oldsave@.len() as int),
                i,
            ),
        decreases self.stack@.len() - d,
    {
        let st = self.stack@;
        let log = self.oldsave@;
        assert(self.frame_ok(d));
        if d + 1 < st.len() {
            self.lemma_chain(d + 1, i);
            lemma_seg_start_mono(st, d + 1, d + 2);
            lemma_seg_start_mono(st, d + 2, st.len() as int);
            let a = log.subrange(seg_start(st, d + 1), seg_start(st, d + 2));
            let b = log.subrange(seg_start(st, d + 2), log.len() as int);
            assert(a + b =~= log.subrange(seg_start(st, d + 1), log.len() as int));
            lemma_rewound_concat(self.saves@, self.snapshots@[d + 1], a, b, i);
        }
    }

    /// Pushes `val` on the explicit stack. The write goes through the undo
    /// log, so a pop of an older frame takes it back. Fails when the
    /// slot vector cannot grow further (a machine limit: its length is a
    /// `usize`).
    pub fn stack_push(&mut self, val: usize) -> (r: Result<(), Error>)
        requires
            old(self).wf(),
        ensures
            final(self).wf(),
            final(self).same_stack(old(self)),
            r.is_ok() ==> final(self).grown(),
            forall|i: int| 0 <= i < old(self).n_saves() ==> #[trigger] final(self).slot(i) == old(self).slot(i),
            r.is_err() <==> old(self).n_saves() + 1 + old(self).explicit().len() >= usize::MAX,
            r.is_err() ==> r == Err::<(), Error>(Error::StackOverflow) && *final(self) == *old(self),
            r.is_ok() ==> final(self).explicit() == old(self).explicit().push(val),
    {
        let esp = self.explicit_sp;
        let sp = self.saves[esp];
        if sp == usize::MAX {
            return Err(Error::StackOverflow);
        }
        let ghost before = *self;
        self.grown = true;
        proof {
            assert forall|d: int| 0 <= d < self.stack@.len() implies #[trigger] self.frame_ok(d) by {
                assert(before.frame_ok(d));
            }
        }
        let ghost pre = *self;
        if self.saves.len() == sp {
            self.saves.push(usize::MAX);
            proof {
                assert forall|i: int| #[trigger] slot_of(self.saves@, i) == slot_of(pre.saves@, i) by {}
                assert forall|d: int| 0 <= d < self.stack@.len() implies #[trigger] self.frame_ok(d) by {
                    assert(pre.frame_ok(d));
                    let st = self.stack@;
                    if d + 1 >= st.len() {
                        let seg = self.oldsave@.subrange(seg_start(st, d + 1), self.oldsave@.len() as int);
                        assert forall|i: int| rewound(self.saves@, seg, i) == #[trigger] slot_of(self.snapshots@[d], i) by {
                            assert(rewound(self.saves@, seg, i) == rewound(pre.saves@, seg, i));
                        }
                    }
                }
            }
        }
        let ghost grown_state = *self;
        self.log_write(sp, val);
        let ghost written_state = *self;
        self.log_write(esp, sp + 1);
        proof {
            assert forall|d: int| 0 <= d < self.depth() implies {
                &&& #[trigger] self.frame_pc(d) == before.frame_pc(d)
                &&& self.frame_ix(d) == before.frame_ix(d)
                &&& forall|i: int| #[trigger] self.frame_slot(d, i) == before.frame_slot(d, i)
                &&& self.frame_explicit(d) == before.frame_explicit(d)
            } by {
                assert(self.frame_pc(d) == written_state.frame_pc(d));
                assert(self.frame_explicit(d) == written_state.frame_explicit(d));
                assert(written_state.frame_explicit(d) == grown_state.frame_explicit(d));
                assert(grown_state.snapshots@[d] == before.snapshots@[d]);
                assert(grown_state.frame_explicit(d) == before.frame_explicit(d));
                assert(written_state.frame_pc(d) == grown_state.frame_pc(d));
                assert forall|i: int| #[trigger] self.frame_slot(d, i) == before.frame_slot(d, i) by {
                    assert(self.frame_slot(d, i) == written_state.frame_slot(d, i));
                    assert(written_state.frame_slot(d, i) == grown_state.frame_slot(d, i));
                }
            }
            assert(grown_state.stack == before.stack);
            assert(grown_state.snapshots == before.snapshots);
            assert(self.depth() == before.depth());
            assert(self.n_saves() == before.n_saves());
            assert(self.max_depth() == before.max_depth());
            assert(self.opts() == before.opts());
        }
        assert(self.explicit() =~= pre.explicit().push(val));
        Ok(())
    }

    /// Number of values on the explicit stack.
    pub fn explicit_depth(&self) -> (r: usize)
        requires
            self.wf(),
        ensures
            r == self.explicit().len(),
    {
        self.saves[self.explicit_sp] - self.explicit_sp - 1
    }

    /// Pops the top value of the explicit stack, through the undo log.
    pub fn stack_pop(&mut self) -> (r: usize)
        requires
            old(self).wf(),
            old(self).explicit().len() > 0,
        ensures
            final(self).wf(),
            final(self).same_frames(old(self)),
            forall|i: int| 0 <= i < old(self).n_saves() ==> #[trigger] final(self).slot(i) == old(self).slot(i),
            r == old(self).explicit().last(),
            final(self).explicit() == old(self).explicit().drop_last(),
    {
        let esp = self.explicit_sp;
        let sp = self.saves[esp] - 1;
        let result = self.saves[sp];
        let ghost pre = *self;
        self.log_write(esp, sp);
        assert(self.explicit() =~= pre.explicit().drop_last());
        result
    }

    /// Discards the frames above the first `count`, as at the end of an
    /// atomic group. The writes that the discarded frames would have undone
    /// are kept in the log of the frame now on top (the earliest prior value
    /// of each slot), so popping any remaining frame still restores the slots
    /// it saved.
    pub fn backtrack_cut(&mut self, count: usize)
        requires
            old(self).wf(),
            count <= old(self).depth(),
        ensures
            final(self).wf(),
            final(self).depth() == count,
            final(self).same_below(old(self), count as int),
            final(self).same_slots(old(self)),
            final(self).len() == old(self).len(),
            final(self).explicit() == old(self).explicit(),
            op_done(*old(self), StateOp::Cut(count), *final(self)),
    {
        if self.stack.len() == count {
            return;
        }
        let ghost pre = *self;
        let ghost st = self.stack@;
        let ghost orig = self.oldsave@;
        let mut lo = self.oldsave.len() - self.nsave;
        let mut d = self.stack.len();
        while d > count + 1
            invariant
                count + 1 <= d <= st.len(),
                pre.wf(),
                st == pre.stack@,
                self.stack@ == st,
                lo == seg_start(st, d as int),
            decreases d,
        {
            d = d - 1;
            proof {
                lemma_seg_start_mono(st, 0, d as int);
            }
            lo = lo - self.stack[d].2;
        }
        proof {
            lemma_seg_start_mono(st, 0, count as int);
        }
        let start = lo - self.stack[count].2;
        assert(start == seg_start(st, count as int));
        fold_log(&mut self.oldsave, start, lo);
        self.stack.truncate(count);
        self.nsave = self.oldsave.len() - start;
        self.snapshots = Ghost(self.snapshots@.subrange(0, count as int));
        proof {
            let st2 = self.stack@;
            let log = self.oldsave@;
            assert forall|e: int| 0 <= e <= count implies #[trigger] seg_start(st2, e) == seg_start(st, e)
                && seg_start(st, e) <= start by {
                lemma_seg_start_prefix(st2, st, e);
                lemma_seg_start_mono(st, e, count as int);
            }
            assert forall|e: int| 0 <= e < count implies #[trigger] self.frame_ok(e) by {
                assert(pre.frame_ok(e));
                if e + 1 < count {
                    lemma_seg_start_mono(st, e + 1, e + 2);
                    lemma_seg_start_mono(st, e + 2, count as int);
                    let end = seg_start(st, e + 2);
                    assert(log.subrange(seg_start(st, e + 1), end) =~= orig.subrange(seg_start(st, e + 1), end)) by {
                        assert forall|j: int| 0 <= j < start implies log[j] == orig[j] by {
                            assert(log.subrange(0, start as int)[j] == orig.subrange(0, start as int)[j]);
                        }
                    }
                } else {
                    let seg = log.subrange(start as int, log.len() as int);
                    let whole = orig.subrange(start as int, orig.len() as int);
                    assert forall|i: int| rewound(self.saves@, seg, i) == #[trigger] slot_of(self.snapshots@[e], i) by {
                        pre.lemma_chain(count as int, i);
                        lemma_seg_start_mono(st, count as int, count + 1);
                        lemma_seg_start_mono(st, count + 1, st.len() as int);
                        let a = orig.subrange(start as int, seg_start(st, count + 1));
                        let b = orig.subrange(seg_start(st, count + 1), orig.len() as int);
                        assert(a + b =~= whole);
                        lemma_rewound_concat(self.saves@, pre.snapshots@[count as int], a, b, i);
                        assert(first_prior(seg, i) == first_prior(whole, i));
                    }
                }
            }
            assert forall|j: int| 0 <= j < log.len() implies (#[trigger] log[j]).0 < self.saves@.len() by {
                assert(occurs(orig, log[j]));
                let k = choose|k: int| 0 <= k < orig.len() && orig[k] == log[j];
                assert(orig[k].0 < self.saves@.len());
            }
        }
    }

    /// The slot vector as the result of a run: the program's slots, with the
    /// cells of the explicit stack after them once an atomic group used them.
    pub fn into_slots(self) -> (r: Vec<usize>)
        requires
            self.wf(),
        ensures
            r@.len() == self.result_len(),
            self.n_saves() < self.len(),
            forall|i: int| 0 <= i < r@.len() ==> r@[i] == #[trigger] self.slot(i),
    {
        let grown = self.grown;
        let esp = self.explicit_sp;
        let mut v = self.saves;
        if !grown {
            v.truncate(esp);
        }
        v
    }

    /// Reads slot `slot`.
    pub fn get(&self, slot: usize) -> (r: usize)
        requires
            self.wf(),
            slot < self.n_saves(),
        ensures
            r == self.slot(slot as int),
    {
        self.saves[slot]
    }

    /// Number of frames on the backtrack stack.
    pub fn backtrack_count(&self) -> (r: usize)
        requires
            self.wf(),
        ensures
            r == self.depth(),
    {
        self.stack.len()
    }
}

} // verus!
