//! The BFF interpreter. A program and its data share one tape; three
//! pointers move over it and wrap around modulo the tape's length.

use vstd::prelude::*;
use crate::constants::{COMBINED_SIZE, MAX_STEPS};

verus! {

/// `<`: move head 0 left.
pub const OP_H0_LEFT: u8 = 60;
/// `>`: move head 0 right.
pub const OP_H0_RIGHT: u8 = 62;
/// `{`: move head 1 left.
pub const OP_H1_LEFT: u8 = 123;
/// `}`: move head 1 right.
pub const OP_H1_RIGHT: u8 = 125;
/// `+`: increment the byte under head 0.
pub const OP_INC: u8 = 43;
/// `-`: decrement the byte under head 0.
pub const OP_DEC: u8 = 45;
/// `.`: copy the byte under head 0 to head 1.
pub const OP_COPY_0_TO_1: u8 = 46;
/// `,`: copy the byte under head 1 to head 0.
pub const OP_COPY_1_TO_0: u8 = 44;
/// `[`: jump past the matching `]` when the byte under head 0 is zero.
pub const OP_LOOP_OPEN: u8 = 91;
/// `]`: jump back to the matching `[` when the byte under head 0 is not zero.
pub const OP_LOOP_CLOSE: u8 = 93;

/// The ten BFF instructions; every other byte is data and a no-op.
pub open spec fn is_opcode(b: u8) -> bool {
    b == OP_H0_LEFT || b == OP_H0_RIGHT || b == OP_H1_LEFT || b == OP_H1_RIGHT || b == OP_INC
        || b == OP_DEC || b == OP_COPY_0_TO_1 || b == OP_COPY_1_TO_0 || b == OP_LOOP_OPEN || b
        == OP_LOOP_CLOSE
}

/// The instructions that write to the tape.
pub open spec fn is_write_op(b: u8) -> bool {
    b == OP_INC || b == OP_DEC || b == OP_COPY_0_TO_1 || b == OP_COPY_1_TO_0
}

/// `+1` for `[`, `-1` for `]`, `0` for any other byte.
pub open spec fn bracket_weight(b: u8) -> int {
    if b == OP_LOOP_OPEN {
        1
    } else if b == OP_LOOP_CLOSE {
        -1
    } else {
        0
    }
}

/// Number of `[` minus number of `]` in `s[lo..hi)`.
pub open spec fn bracket_balance(s: Seq<u8>, lo: int, hi: int) -> int
    decreases hi - lo,
{
    if hi <= lo {
        0
    } else {
        bracket_balance(s, lo, hi - 1) + bracket_weight(s[hi - 1])
    }
}

/// `j` closes the loop opened at `from`: scanning right from `from`, `j` is
/// the first position where the `]` seen outnumber the `[` seen.
pub open spec fn is_forward_match(s: Seq<u8>, from: int, j: int) -> bool {
    &&& from < j < s.len()
    &&& bracket_balance(s, from + 1, j + 1) == -1
    &&& forall|k: int| from < k < j ==> #[trigger] bracket_balance(s, from + 1, k + 1) >= 0
}

/// The position of the `]` that matches a `[` at `from`, if there is one.
pub open spec fn forward_match(s: Seq<u8>, from: int) -> Option<int> {
    if exists|j: int| is_forward_match(s, from, j) {
        Some(choose|j: int| is_forward_match(s, from, j))
    } else {
        None
    }
}

/// `j` opens the loop closed at `from`: scanning left from `from`, `j` is the
/// first position where the `[` seen outnumber the `]` seen.
pub open spec fn is_backward_match(s: Seq<u8>, from: int, j: int) -> bool {
    &&& 0 <= j < from
    &&& bracket_balance(s, j, from) == 1
    &&& forall|k: int| j < k < from ==> #[trigger] bracket_balance(s, k, from) <= 0
}

/// The position of the `[` that matches a `]` at `from`, if there is one.
pub open spec fn backward_match(s: Seq<u8>, from: int) -> Option<int> {
    if exists|j: int| is_backward_match(s, from, j) {
        Some(choose|j: int| is_backward_match(s, from, j))
    } else {
        None
    }
}

/// The balance of a range is the sum of the balances of its two parts.
pub proof fn lemma_balance_split(s: Seq<u8>, lo: int, mid: int, hi: int)
    requires
        lo <= mid <= hi,
    ensures
        bracket_balance(s, lo, hi) == bracket_balance(s, lo, mid) + bracket_balance(s, mid, hi),
    decreases hi - mid,
{
    if hi > mid {
        lemma_balance_split(s, lo, mid, hi - 1);
    }
}

/// Peeling off the first byte of a range.
pub proof fn lemma_balance_front(s: Seq<u8>, lo: int, hi: int)
    requires
        lo < hi,
    ensures
        bracket_balance(s, lo, hi) == bracket_weight(s[lo]) + bracket_balance(s, lo + 1, hi),
{
    lemma_balance_split(s, lo, lo + 1, hi);
    assert(bracket_balance(s, lo, lo) == 0);
    assert(bracket_balance(s, lo, lo + 1) == bracket_weight(s[lo]));
}

pub proof fn lemma_forward_match_unique(s: Seq<u8>, from: int, j: int)
    requires
        is_forward_match(s, from, j),
    ensures
        forward_match(s, from) == Some(j),
{
    let c = choose|i: int| is_forward_match(s, from, i);
    assert(is_forward_match(s, from, c));
    if c < j {
        assert(bracket_balance(s, from + 1, c + 1) >= 0);
    } else if j < c {
        assert(bracket_balance(s, from + 1, j + 1) >= 0);
    }
}

pub proof fn lemma_backward_match_unique(s: Seq<u8>, from: int, j: int)
    requires
        is_backward_match(s, from, j),
    ensures
        backward_match(s, from) == Some(j),
{
    let c = choose|i: int| is_backward_match(s, from, i);
    assert(is_backward_match(s, from, c));
    if c < j {
        assert(bracket_balance(s, j, from) <= 0);
    } else if j < c {
        assert(bracket_balance(s, c, from) <= 0);
    }
}

/// Finds the `]` that matches the `[` at `from` by scanning right with a
/// nesting depth; `None` when the loop is never closed before the tape's end
/// (always so when `from` is at or past the last position).
pub fn match_forward(tape: &[u8; COMBINED_SIZE], from: usize) -> (r: Option<usize>)
    requires
        from < usize::MAX,
    ensures
        match r {
            Some(j) => forward_match(tape@, from as int) == Some(j as int),
            None => forward_match(tape@, from as int) is None,
        },
{
    let ghost s = tape@;
    let mut depth: i32 = 1;
    let mut i = from + 1;
    while i < COMBINED_SIZE
        invariant
            s == tape@,
            s.len() == COMBINED_SIZE,
            from < i,
            i <= COMBINED_SIZE || i == from + 1,
            1 <= depth <= i - from,
            depth == 1 + bracket_balance(s, from as int + 1, i as int),
            forall|k: int| from < k < i ==> #[trigger] bracket_balance(s, from as int + 1, k + 1) >= 0,
        decreases COMBINED_SIZE - i,
    {
        let b = tape[i];
        assert(bracket_balance(s, from as int + 1, i as int + 1) == bracket_balance(
            s,
            from as int + 1,
            i as int,
        ) + bracket_weight(b));
        if b == OP_LOOP_OPEN {
            depth += 1;
        } else if b == OP_LOOP_CLOSE {
            depth -= 1;
            if depth == 0 {
                proof {
                    lemma_forward_match_unique(s, from as int, i as int);
                }
                return Some(i);
            }
        }
        i += 1;
    }
    proof {
        if exists|j: int| is_forward_match(s, from as int, j) {
            let j = choose|j: int| is_forward_match(s, from as int, j);
            assert(bracket_balance(s, from as int + 1, j + 1) >= 0);
        }
    }
    None
}

/// Finds the `[` that matches the `]` at `from` by scanning left with a
/// nesting depth, from position `from - 1` down; `None` when the loop is
/// never opened after the tape's start. The byte at `from` is not read, so
/// `from` may be the tape's length.
pub fn match_backward(tape: &[u8; COMBINED_SIZE], from: usize) -> (r: Option<usize>)
    requires
        from <= COMBINED_SIZE,
    ensures
        match r {
            Some(j) => backward_match(tape@, from as int) == Some(j as int),
            None => backward_match(tape@, from as int) is None,
        },
{
    let ghost s = tape@;
    let mut depth: i32 = 1;
    let mut i = from;
    while i > 0
        invariant
            s == tape@,
            s.len() == COMBINED_SIZE,
            i <= from <= COMBINED_SIZE,
            1 <= depth <= from - i + 1,
            depth == 1 - bracket_balance(s, i as int, from as int),
            forall|k: int| i <= k < from ==> #[trigger] bracket_balance(s, k, from as int) <= 0,
        decreases i,
    {
        i -= 1;
        let b = tape[i];
        proof {
            lemma_balance_front(s, i as int, from as int);
        }
        if b == OP_LOOP_CLOSE {
            depth += 1;
        } else if b == OP_LOOP_OPEN {
            depth -= 1;
            if depth == 0 {
                proof {
                    lemma_backward_match_unique(s, from as int, i as int);
                }
                return Some(i);
            }
        }
    }
    proof {
        if exists|j: int| is_backward_match(s, from as int, j) {
            let j = choose|j: int| is_backward_match(s, from as int, j);
            assert(bracket_balance(s, j, from as int) <= 0);
        }
    }
    None
}

/// The interpreter's state: the tape, the program counter `pc` and the two
/// heads `h0` and `h1`.
#[verifier::ext_equal]
pub struct BffState {
    pub tape: Seq<u8>,
    pub pc: int,
    pub h0: int,
    pub h1: int,
}

/// One position to the left, wrapping around the combined tape.
pub open spec fn wrap_left(p: int) -> int {
    (p + COMBINED_SIZE - 1) % (COMBINED_SIZE as int)
}

/// One position to the right, wrapping around the combined tape.
pub open spec fn wrap_right(p: int) -> int {
    (p + 1) % (COMBINED_SIZE as int)
}

/// A byte plus one, wrapping from 255 to 0.
pub open spec fn inc_byte(b: u8) -> u8 {
    if b == 255 {
        0
    } else {
        (b + 1) as u8
    }
}

/// A byte minus one, wrapping from 0 to 255.
pub open spec fn dec_byte(b: u8) -> u8 {
    if b == 0 {
        255
    } else {
        (b - 1) as u8
    }
}

/// The effect of the instruction under `pc`, before `pc` advances.
pub open spec fn execute(st: BffState) -> BffState {
    let t = st.tape;
    let op = t[st.pc];
    if op == OP_H0_LEFT {
        BffState { tape: t, pc: st.pc, h0: wrap_left(st.h0), h1: st.h1 }
    } else if op == OP_H0_RIGHT {
        BffState { tape: t, pc: st.pc, h0: wrap_right(st.h0), h1: st.h1 }
    } else if op == OP_H1_LEFT {
        BffState { tape: t, pc: st.pc, h0: st.h0, h1: wrap_left(st.h1) }
    } else if op == OP_H1_RIGHT {
        BffState { tape: t, pc: st.pc, h0: st.h0, h1: wrap_right(st.h1) }
    } else if op == OP_INC {
        BffState { tape: t.update(st.h0, inc_byte(t[st.h0])), pc: st.pc, h0: st.h0, h1: st.h1 }
    } else if op == OP_DEC {
        BffState { tape: t.update(st.h0, dec_byte(t[st.h0])), pc: st.pc, h0: st.h0, h1: st.h1 }
    } else if op == OP_COPY_0_TO_1 {
        BffState { tape: t.update(st.h1, t[st.h0]), pc: st.pc, h0: st.h0, h1: st.h1 }
    } else if op == OP_COPY_1_TO_0 {
        BffState { tape: t.update(st.h0, t[st.h1]), pc: st.pc, h0: st.h0, h1: st.h1 }
    } else if op == OP_LOOP_OPEN && t[st.h0] == 0 {
        match forward_match(t, st.pc) {
            Some(j) => BffState { tape: t, pc: j, h0: st.h0, h1: st.h1 },
            None => st,
        }
    } else if op == OP_LOOP_CLOSE && t[st.h0] != 0 {
        match backward_match(t, st.pc) {
            Some(j) => BffState { tape: t, pc: j, h0: st.h0, h1: st.h1 },
            None => st,
        }
    } else {
        st
    }
}

/// One instruction of the interpreter: execute, then advance `pc`.
pub open spec fn step(st: BffState) -> BffState {
    let e = execute(st);
    BffState { tape: e.tape, pc: wrap_right(e.pc), h0: e.h0, h1: e.h1 }
}

/// The state after `n` instructions.
pub open spec fn run_steps(st: BffState, n: nat) -> BffState
    decreases n,
{
    if n == 0 {
        st
    } else {
        step(run_steps(st, (n - 1) as nat))
    }
}

/// The state the interpreter starts in: all three pointers at position 0.
pub open spec fn initial_state(tape: Seq<u8>) -> BffState {
    BffState { tape, pc: 0, h0: 0, h1: 0 }
}

/// The tape after `MAX_STEPS` instructions.
pub open spec fn run_result(tape: Seq<u8>) -> Seq<u8> {
    run_steps(initial_state(tape), MAX_STEPS as nat).tape
}

/// Runs the BFF interpreter on a combined tape for exactly `MAX_STEPS`
/// instructions. The tape is mutated in place: this is how programs modify
/// themselves and each other.
pub fn run(tape: &mut [u8; COMBINED_SIZE])
    ensures
        final(tape)@ == run_result(old(tape)@),
{
    let ghost init = initial_state(tape@);
    let mut pc: usize = 0;
    let mut h0: usize = 0;
    let mut h1: usize = 0;
    for n in 0..MAX_STEPS
        invariant
            pc < COMBINED_SIZE,
            h0 < COMBINED_SIZE,
            h1 < COMBINED_SIZE,
            tape@.len() == COMBINED_SIZE,
            run_steps(init, n as nat) =~= (BffState {
                tape: tape@,
                pc: pc as int,
                h0: h0 as int,
                h1: h1 as int,
            }),
    {
        let ghost before = BffState { tape: tape@, pc: pc as int, h0: h0 as int, h1: h1 as int };
        let op = tape[pc];
        if op == OP_H0_LEFT {
            h0 = (h0 + COMBINED_SIZE - 1) % COMBINED_SIZE;
        } else if op == OP_H0_RIGHT {
            h0 = (h0 + 1) % COMBINED_SIZE;
        } else if op == OP_H1_LEFT {
            h1 = (h1 + COMBINED_SIZE - 1) % COMBINED_SIZE;
        } else if op == OP_H1_RIGHT {
            h1 = (h1 + 1) % COMBINED_SIZE;
        } else if op == OP_INC {
            tape[h0] = tape[h0].wrapping_add(1);
        } else if op == OP_DEC {
            tape[h0] = tape[h0].wrapping_sub(1);
        } else if op == OP_COPY_0_TO_1 {
            tape[h1] = tape[h0];
        } else if op == OP_COPY_1_TO_0 {
            tape[h0] = tape[h1];
        } else if op == OP_LOOP_OPEN {
            if tape[h0] == 0 {
                if let Some(target) = match_forward(&*tape, pc) {
                    pc = target;
                }
            }
        } else if op == OP_LOOP_CLOSE {
            if tape[h0] != 0 {
                if let Some(target) = match_backward(&*tape, pc) {
                    pc = target;
                }
            }
        }
        proof {
            if let Some(j) = forward_match(before.tape, before.pc) {
                assert(is_forward_match(before.tape, before.pc, j));
            }
            if let Some(j) = backward_match(before.tape, before.pc) {
                assert(is_backward_match(before.tape, before.pc, j));
            }
        }
        pc = (pc + 1) % COMBINED_SIZE;
        assert(step(before) =~= (BffState {
            tape: tape@,
            pc: pc as int,
            h0: h0 as int,
            h1: h1 as int,
        }));
    }
}

/// Loop matching is mutual: the `]` found for a `[` is matched back to that
/// same `[`, and the `[` found for a `]` is matched forward to that same `]`.
pub proof fn lemma_matches_are_mutual(s: Seq<u8>, open: int, close: int)
    requires
        0 <= open < close < s.len(),
        s[open] == OP_LOOP_OPEN,
        s[close] == OP_LOOP_CLOSE,
    ensures
        forward_match(s, open) == Some(close) <==> backward_match(s, close) == Some(open),
{
    if forward_match(s, open) == Some(close) {
        assert(is_forward_match(s, open, close));
        lemma_balance_front(s, open, close);
        assert(bracket_balance(s, open + 1, close) == 0) by {
            if close > open + 1 {
                assert(bracket_balance(s, open + 1, (close - 1) + 1) >= 0);
            }
        }
        assert forall|k: int| open < k < close implies #[trigger] bracket_balance(s, k, close)
            <= 0 by {
            lemma_balance_split(s, open + 1, k, close);
            if k > open + 1 {
                assert(bracket_balance(s, open + 1, (k - 1) + 1) >= 0);
            }
        }
        assert(is_backward_match(s, close, open));
        lemma_backward_match_unique(s, close, open);
    }
    if backward_match(s, close) == Some(open) {
        assert(is_backward_match(s, close, open));
        lemma_balance_front(s, open, close);
        assert(bracket_balance(s, open + 1, close) == 0) by {
            if close > open + 1 {
                assert(bracket_balance(s, open + 1, close) <= 0);
            }
        }
        assert forall|k: int| open < k < close implies #[trigger] bracket_balance(
            s,
            open + 1,
            k + 1,
        ) >= 0 by {
            lemma_balance_split(s, open + 1, k + 1, close);
            if k + 1 < close {
                assert(bracket_balance(s, k + 1, close) <= 0);
            }
        }
        assert(is_forward_match(s, open, close));
        lemma_forward_match_unique(s, open, close);
    }
}

/// However many instructions run, the tape keeps its length and the program
/// counter and both heads stay on it: every pointer wraps around modulo
/// `COMBINED_SIZE`.
pub proof fn lemma_pointers_stay_on_tape(tape: Seq<u8>, n: nat)
    requires
        tape.len() == COMBINED_SIZE,
    ensures
        run_steps(initial_state(tape), n).tape.len() == COMBINED_SIZE,
        0 <= run_steps(initial_state(tape), n).pc < COMBINED_SIZE,
        0 <= run_steps(initial_state(tape), n).h0 < COMBINED_SIZE,
        0 <= run_steps(initial_state(tape), n).h1 < COMBINED_SIZE,
    decreases n,
{
    if n > 0 {
        lemma_pointers_stay_on_tape(tape, (n - 1) as nat);
        let st = run_steps(initial_state(tape), (n - 1) as nat);
        if let Some(j) = forward_match(st.tape, st.pc) {
            assert(is_forward_match(st.tape, st.pc, j));
        }
        if let Some(j) = backward_match(st.tape, st.pc) {
            assert(is_backward_match(st.tape, st.pc, j));
        }
    }
}

/// Everything but the ten instructions is raw data: a tape that holds none of
/// the four writing instructions (`+`, `-`, `.`, `,`) is left unchanged by
/// every number of instructions, and so by a whole run.
pub proof fn lemma_tape_without_writes_is_unchanged(tape: Seq<u8>, n: nat)
    requires
        tape.len() == COMBINED_SIZE,
        forall|i: int| 0 <= i < tape.len() ==> !is_write_op(#[trigger] tape[i]),
    ensures
        run_steps(initial_state(tape), n).tape == tape,
        n == MAX_STEPS ==> run_result(tape) == tape,
    decreases n,
{
    if n > 0 {
        lemma_tape_without_writes_is_unchanged(tape, (n - 1) as nat);
        lemma_pointers_stay_on_tape(tape, (n - 1) as nat);
        let st = run_steps(initial_state(tape), (n - 1) as nat);
        assert(!is_write_op(tape[st.pc]));
    }
}

} // verus!
