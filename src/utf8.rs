//! Small UTF-8 helpers used to step the input index by whole code points.
use vstd::prelude::*;
use vstd::string::StringSliceAdditionalSpecFns;
use vstd::utf8::{is_char_boundary, length_of_first_scalar, pop_first_scalar, valid_utf8};

verus! {

/// A byte that continues a multi-byte UTF-8 sequence (`0b10xx_xxxx`).
pub open spec fn is_continuation(b: u8) -> bool {
    0x80 <= b && b < 0xC0
}

/// Length of the UTF-8 sequence announced by its leading byte.
pub open spec fn spec_codepoint_len(b: u8) -> usize {
    if b < 0x80 {
        1
    } else if b < 0xE0 {
        2
    } else if b < 0xF0 {
        3
    } else {
        4
    }
}

/// Returns the byte length of the code point whose encoding starts with `b`.
pub fn codepoint_len(b: u8) -> (r: usize)
    ensures
        r == spec_codepoint_len(b),
        1 <= r <= 4,
{
    if b < 0x80 {
        1
    } else if b < 0xE0 {
        2
    } else if b < 0xF0 {
        3
    } else {
        4
    }
}

/// In valid UTF-8, the code point that starts at a boundary ends at one.
pub proof fn lemma_next_boundary(bytes: Seq<u8>, i: int)
    requires
        valid_utf8(bytes),
        is_char_boundary(bytes, i),
        0 <= i < bytes.len(),
    ensures
        i + spec_codepoint_len(bytes[i]) <= bytes.len(),
        is_char_boundary(bytes, i + spec_codepoint_len(bytes[i])),
    decreases bytes.len(),
{
    let l = length_of_first_scalar(bytes);
    let rest = pop_first_scalar(bytes);
    assert(l == spec_codepoint_len(bytes[0]) && 1 <= l <= bytes.len());
    assert(valid_utf8(rest));
    if i == 0 {
        if l < bytes.len() {
            reveal_with_fuel(is_char_boundary, 2);
        } else {
            reveal_with_fuel(is_char_boundary, 2);
        }
    } else {
        assert(is_char_boundary(rest, i - l));
        lemma_next_boundary(rest, i - l);
        assert(rest[i - l] == bytes[i]);
        reveal_with_fuel(is_char_boundary, 2);
    }
}

/// In valid UTF-8, a valid UTF-8 sequence that stands at a boundary ends at
/// one.
pub proof fn lemma_run_boundary(bytes: Seq<u8>, i: int, run: Seq<u8>)
    requires
        valid_utf8(bytes),
        valid_utf8(run),
        is_char_boundary(bytes, i),
        0 <= i,
        i + run.len() <= bytes.len(),
        bytes.subrange(i, i + run.len()) == run,
    ensures
        is_char_boundary(bytes, i + run.len()),
    decreases run.len(),
{
    if run.len() > 0 {
        let l = length_of_first_scalar(run);
        assert(run[0] == bytes.subrange(i, i + run.len())[0]);
        assert(l == spec_codepoint_len(bytes[i]));
        lemma_next_boundary(bytes, i);
        let rest = pop_first_scalar(run);
        assert(bytes.subrange(i + l, i + l + rest.len()) =~= rest) by {
            assert forall|k: int| 0 <= k < rest.len() implies bytes.subrange(i + l, i + l + rest.len())[k] == rest[k] by {
                assert(rest[k] == run[l + k]);
                assert(run[l + k] == bytes.subrange(i, i + run.len())[l + k]);
            }
        }
        lemma_run_boundary(bytes, i + l, rest);
    }
}

/// Returns the byte length of the code point starting at byte `ix` of `s`.
pub fn codepoint_len_at(s: &str, ix: usize) -> (r: usize)
    requires
        ix < s.spec_bytes().len(),
    ensures
        r == spec_codepoint_len(s.spec_bytes()[ix as int]),
        1 <= r <= 4,
        is_char_boundary(s.spec_bytes(), ix as int) ==> ix + r <= s.spec_bytes().len() && is_char_boundary(
            s.spec_bytes(),
            ix + r,
        ),
{
    let bytes = s.as_bytes();
    proof {
        vstd::utf8::encode_utf8_valid_utf8(s@);
        if is_char_boundary(s.spec_bytes(), ix as int) {
            lemma_next_boundary(s.spec_bytes(), ix as int);
        }
    }
    codepoint_len(bytes[ix])
}

/// Start of the code point that ends just before `ix`: the nearest index
/// below `ix` without a continuation byte, or 0.
pub open spec fn spec_prev_ix(bytes: Seq<u8>, ix: int) -> int
    decreases ix,
{
    if ix <= 1 {
        0
    } else if !is_continuation(bytes[ix - 1]) {
        ix - 1
    } else {
        spec_prev_ix(bytes, ix - 1)
    }
}

/// The index `n` code points before `ix`; `None` when the start of the
/// input comes first.
pub open spec fn back_by(bytes: Seq<u8>, ix: int, n: nat) -> Option<int>
    decreases n,
{
    if n == 0 {
        Some(ix)
    } else {
        match back_by(bytes, ix, (n - 1) as nat) {
            Some(c) => if c == 0 {
                None
            } else {
                Some(spec_prev_ix(bytes, c))
            },
            None => None,
        }
    }
}

/// The index `n` code points after `ix`; `None` when the end of the input
/// comes first.
pub open spec fn fwd_by(bytes: Seq<u8>, ix: int, n: nat) -> Option<int>
    decreases n,
{
    if n == 0 {
        Some(ix)
    } else {
        match fwd_by(bytes, ix, (n - 1) as nat) {
            Some(c) => if c >= bytes.len() {
                None
            } else {
                Some(c + spec_codepoint_len(bytes[c]))
            },
            None => None,
        }
    }
}

/// Returns the index of the start of the code point that ends just before
/// byte `ix`: the nearest index below `ix` that holds no continuation byte,
/// or 0 when every byte below `ix` is one.
pub fn prev_codepoint_ix(s: &str, ix: usize) -> (r: usize)
    requires
        0 < ix <= s.spec_bytes().len(),
    ensures
        r < ix,
        r == 0 || !is_continuation(s.spec_bytes()[r as int]),
        forall|j: int| r < j < ix ==> is_continuation(#[trigger] s.spec_bytes()[j]),
        is_char_boundary(s.spec_bytes(), r as int),
        r == spec_prev_ix(s.spec_bytes(), ix as int),
{
    let bytes = s.as_bytes();
    let mut i: usize = ix - 1;
    while i > 0 && 0x80 <= bytes[i] && bytes[i] < 0xC0
        invariant
            i < ix <= bytes@.len(),
            bytes@ == s.spec_bytes(),
            forall|j: int| i < j < ix ==> is_continuation(#[trigger] bytes@[j]),
            spec_prev_ix(bytes@, ix as int) == spec_prev_ix(bytes@, i + 1),
        decreases i,
    {
        i = i - 1;
    }
    proof {
        vstd::utf8::encode_utf8_valid_utf8(s@);
        if i == 0 {
            vstd::utf8::is_char_boundary_start_end_of_seq(s.spec_bytes());
        } else {
            vstd::utf8::is_char_boundary_iff_not_is_continuation_byte(s.spec_bytes(), i as int);
        }
    }
    i
}

} // verus!
