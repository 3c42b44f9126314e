//! Metrics of the soup and the detection of self-replicating loops.

use vstd::prelude::*;
use vstd::slice::{slice_subrange, slice_to_vec};
use crate::order::{byte_strings, count_distinct_sorted, sort_byte_strings};
use crate::constants::{BAR_WIDTH, SAMPLE_COUNT, TAPE_SIZE};
use crate::random::{sample_indices, thread_generator};
use crate::interpreter::{
    backward_match, bracket_balance, bracket_weight, is_backward_match, is_opcode,
    lemma_backward_match_unique, lemma_balance_front,
    lemma_balance_split, OP_COPY_0_TO_1, OP_COPY_1_TO_0, OP_DEC, OP_H0_LEFT, OP_H0_RIGHT,
    OP_H1_LEFT, OP_H1_RIGHT, OP_INC, OP_LOOP_CLOSE, OP_LOOP_OPEN,
};

verus! {

broadcast use {vstd::seq_lib::group_to_multiset_ensures, vstd::set::group_set_axioms};

/// The contents of each tape.
pub open spec fn tape_contents(tapes: Seq<[u8; TAPE_SIZE]>) -> Seq<Seq<u8>> {
    tapes.map_values(|t: [u8; TAPE_SIZE]| t@)
}

/// All bytes of the soup, tape after tape.
pub open spec fn soup_bytes(tapes: Seq<[u8; TAPE_SIZE]>) -> Seq<u8>
    decreases tapes.len(),
{
    if tapes.len() == 0 {
        Seq::empty()
    } else {
        soup_bytes(tapes.drop_last()) + tapes.last()@
    }
}

/// Number of opcode bytes in `s`.
pub open spec fn count_opcodes(s: Seq<u8>) -> nat
    decreases s.len(),
{
    if s.len() == 0 {
        0
    } else {
        count_opcodes(s.drop_last()) + if is_opcode(s.last()) {
            1nat
        } else {
            0nat
        }
    }
}

/// Two lists with the same elements, as often each, have the same set of
/// elements.
proof fn lemma_same_multiset_same_set<A>(a: Seq<A>, b: Seq<A>)
    requires
        a.to_multiset() == b.to_multiset(),
    ensures
        a.to_set() == b.to_set(),
{
    assert forall|x: A| a.to_set().contains(x) <==> b.to_set().contains(x) by {
        assert(a.contains(x) <==> a.to_multiset().count(x) > 0);
        assert(b.contains(x) <==> b.to_multiset().count(x) > 0);
    }
    assert(a.to_set() =~= b.to_set());
}

/// Number of distinct byte strings in a list, which is sorted on the way.
fn count_distinct(keys: &mut Vec<Vec<u8>>) -> (r: usize)
    ensures
        r == byte_strings(old(keys)@).to_set().len(),
{
    sort_byte_strings(keys);
    proof {
        lemma_same_multiset_same_set(byte_strings(old(keys)@), byte_strings(keys@));
    }
    count_distinct_sorted(keys)
}

/// The number of distinct tapes in the soup.
pub fn unique_count(tapes: &[[u8; TAPE_SIZE]]) -> (r: usize)
    ensures
        r == tape_contents(tapes@).to_set().len(),
{
    let mut keys: Vec<Vec<u8>> = Vec::new();
    let n = tapes.len();
    for i in 0..n
        invariant
            n == tapes@.len(),
            byte_strings(keys@) == tape_contents(tapes@).take(i as int),
    {
        let tape: [u8; TAPE_SIZE] = tapes[i];
        let key = slice_to_vec(tape.as_slice());
        assert(key@ == tape_contents(tapes@)[i as int]);
        let ghost before = keys@;
        keys.push(key);
        assert(keys@ == before.push(key));
        assert(byte_strings(keys@) =~= byte_strings(before).push(key@));
        assert(tape_contents(tapes@).take(i as int + 1) =~= tape_contents(tapes@).take(i as int).push(
            tape_contents(tapes@)[i as int],
        ));
        assert(byte_strings(keys@) =~= tape_contents(tapes@).take(i as int + 1));
    }
    assert(tape_contents(tapes@).take(n as int) =~= tape_contents(tapes@));
    count_distinct(&mut keys)
}

/// A tape's code skeleton: its opcodes in place, every other byte zeroed.
pub open spec fn skeleton_of(t: Seq<u8>) -> Seq<u8> {
    Seq::new(t.len(), |i: int| if is_opcode(t[i]) { t[i] } else { 0u8 })
}

/// The code skeleton of a tape.
pub fn code_skeleton(tape: &[u8; TAPE_SIZE]) -> (skel: Vec<u8>)
    ensures
        skel@ == skeleton_of(tape@),
{
    let mut skel: Vec<u8> = Vec::with_capacity(TAPE_SIZE);
    for i in 0..TAPE_SIZE
        invariant
            tape@.len() == TAPE_SIZE,
            skel@ == skeleton_of(tape@).take(i as int),
    {
        let b = tape[i];
        if is_opcode_byte(b) {
            skel.push(b);
        } else {
            skel.push(0);
        }
        assert(skel@ =~= skeleton_of(tape@).take(i as int + 1));
    }
    assert(skeleton_of(tape@).take(TAPE_SIZE as int) =~= skeleton_of(tape@));
    skel
}

/// The skeleton of each tape.
pub open spec fn skeletons(tapes: Seq<[u8; TAPE_SIZE]>) -> Seq<Seq<u8>> {
    tape_contents(tapes).map_values(|t: Seq<u8>| skeleton_of(t))
}

/// The number of distinct code skeletons in the soup: tapes that differ
/// only in their data bytes count once.
pub fn unique_code(tapes: &[[u8; TAPE_SIZE]]) -> (r: usize)
    ensures
        r == skeletons(tapes@).to_set().len(),
{
    let mut keys: Vec<Vec<u8>> = Vec::new();
    let n = tapes.len();
    for i in 0..n
        invariant
            n == tapes@.len(),
            byte_strings(keys@) == skeletons(tapes@).take(i as int),
    {
        let key = code_skeleton(&tapes[i]);
        assert(key@ == skeletons(tapes@)[i as int]);
        let ghost before = keys@;
        keys.push(key);
        assert(keys@ == before.push(key));
        assert(byte_strings(keys@) =~= byte_strings(before).push(key@));
        assert(skeletons(tapes@).take(i as int + 1) =~= skeletons(tapes@).take(i as int).push(
            skeletons(tapes@)[i as int],
        ));
        assert(byte_strings(keys@) =~= skeletons(tapes@).take(i as int + 1));
    }
    assert(skeletons(tapes@).take(n as int) =~= skeletons(tapes@));
    count_distinct(&mut keys)
}

/// Adding one tape to the soup appends its bytes.
proof fn lemma_soup_bytes_push(tapes: Seq<[u8; TAPE_SIZE]>, i: int)
    requires
        0 <= i < tapes.len(),
    ensures
        soup_bytes(tapes.take(i + 1)) == soup_bytes(tapes.take(i)) + tapes[i]@,
{
    assert(tapes.take(i + 1).drop_last() =~= tapes.take(i));
}

/// How often each byte value occurs in the soup: entry `b` counts the bytes
/// equal to `b` over all tapes.
pub fn byte_counts(tapes: &[[u8; TAPE_SIZE]]) -> (counts: Vec<u64>)
    requires
        tapes@.len() * TAPE_SIZE <= usize::MAX,
    ensures
        counts@.len() == 256,
        forall|b: u8| counts@[b as int] == soup_bytes(tapes@).to_multiset().count(b),
{
    let mut counts: Vec<u64> = Vec::new();
    for b in 0..256usize
        invariant
            counts@.len() == b,
            forall|k: int| 0 <= k < b ==> counts@[k] == 0,
    {
        counts.push(0);
    }
    assert(soup_bytes(tapes@.take(0)) =~= Seq::<u8>::empty());
    let n = tapes.len();
    for t in 0..n
        invariant
            n == tapes@.len(),
            n * TAPE_SIZE <= usize::MAX,
            counts@.len() == 256,
            forall|b: u8| #[trigger] counts@[b as int] == soup_bytes(tapes@.take(t as int)).to_multiset().count(b),
            forall|k: int| 0 <= k < 256 ==> #[trigger] counts@[k] <= t * TAPE_SIZE,
    {
        let ghost prefix = soup_bytes(tapes@.take(t as int));
        let tape = &tapes[t];
        for j in 0..TAPE_SIZE
            invariant
                n == tapes@.len(),
                n * TAPE_SIZE <= usize::MAX,
                t < n,
                tape@ == tapes@[t as int]@,
                tape@.len() == TAPE_SIZE,
                counts@.len() == 256,
                forall|b: u8| #[trigger] counts@[b as int] == (prefix + tape@.take(j as int)).to_multiset().count(b),
                forall|k: int| 0 <= k < 256 ==> #[trigger] counts@[k] <= t * TAPE_SIZE + j,
        {
            let byte = tape[j];
            let idx = byte as usize;
            assert(counts@[idx as int] <= t * TAPE_SIZE + j);
            assert(t * TAPE_SIZE + j < n * TAPE_SIZE) by (nonlinear_arith)
                requires
                    t < n,
                    j < TAPE_SIZE,
            ;
            let c = counts[idx];
            let ghost before = counts@;
            counts.set(idx, c + 1);
            assert(prefix + tape@.take(j as int + 1) =~= (prefix + tape@.take(j as int)).push(byte));
            assert forall|b: u8| #[trigger] counts@[b as int] == (prefix + tape@.take(j as int + 1)).to_multiset().count(b) by {
                if b != byte {
                    assert(counts@[b as int] == before[b as int]);
                }
            }
        }
        proof {
            lemma_soup_bytes_push(tapes@, t as int);
            assert(tape@.take(TAPE_SIZE as int) =~= tape@);
        }
    }
    assert(tapes@.take(n as int) =~= tapes@);
    counts
}

/// The number of opcode bytes in the soup.
pub fn opcode_count(tapes: &[[u8; TAPE_SIZE]]) -> (count: usize)
    requires
        tapes@.len() * TAPE_SIZE <= usize::MAX,
    ensures
        count == count_opcodes(soup_bytes(tapes@)),
{
    let mut count: usize = 0;
    assert(soup_bytes(tapes@.take(0)) =~= Seq::<u8>::empty());
    let n = tapes.len();
    for t in 0..n
        invariant
            n == tapes@.len(),
            n * TAPE_SIZE <= usize::MAX,
            count == count_opcodes(soup_bytes(tapes@.take(t as int))),
            count <= t * TAPE_SIZE,
    {
        let ghost prefix = soup_bytes(tapes@.take(t as int));
        let tape = &tapes[t];
        for j in 0..TAPE_SIZE
            invariant
                n == tapes@.len(),
                n * TAPE_SIZE <= usize::MAX,
                t < n,
                tape@ == tapes@[t as int]@,
                tape@.len() == TAPE_SIZE,
                count == count_opcodes(prefix + tape@.take(j as int)),
                count <= t * TAPE_SIZE + j,
        {
            let byte = tape[j];
            assert(t * TAPE_SIZE + j < n * TAPE_SIZE) by (nonlinear_arith)
                requires
                    t < n,
                    j < TAPE_SIZE,
            ;
            assert((prefix + tape@.take(j as int + 1)).drop_last() =~= prefix + tape@.take(j as int));
            if is_opcode_byte(byte) {
                count += 1;
            }
        }
        proof {
            lemma_soup_bytes_push(tapes@, t as int);
            assert(tape@.take(TAPE_SIZE as int) =~= tape@);
        }
    }
    assert(tapes@.take(n as int) =~= tapes@);
    count
}

/// The character `0`, kept beside the opcodes when a tape is rendered or
/// compressed.
pub const ZERO_CHAR: u8 = 48;

/// Whether `b` is one of the ten BFF opcodes.
pub fn is_opcode_byte(b: u8) -> (r: bool)
    ensures
        r == is_opcode(b),
{
    b == OP_H0_LEFT || b == OP_H0_RIGHT || b == OP_H1_LEFT || b == OP_H1_RIGHT || b == OP_INC
        || b == OP_DEC || b == OP_COPY_0_TO_1 || b == OP_COPY_1_TO_0 || b == OP_LOOP_OPEN || b
        == OP_LOOP_CLOSE
}

/// A byte of a tape's opcode/zero skeleton: an opcode or the character `0`.
pub open spec fn is_code_byte(b: u8) -> bool {
    is_opcode(b) || b == ZERO_CHAR
}

/// The code bytes of `s`, in order: all other bytes dropped.
pub open spec fn code_bytes(s: Seq<u8>) -> Seq<u8>
    decreases s.len(),
{
    if s.len() == 0 {
        Seq::empty()
    } else if is_code_byte(s.last()) {
        code_bytes(s.drop_last()).push(s.last())
    } else {
        code_bytes(s.drop_last())
    }
}

/// "Compresses" a tape down to its opcode/zero skeleton: keeps only the bytes
/// that are one of the ten opcodes or the character `0`, in order.
pub fn compress_tape(tape: &[u8; TAPE_SIZE]) -> (out: Vec<u8>)
    ensures
        out@ == code_bytes(tape@),
{
    let mut out: Vec<u8> = Vec::with_capacity(TAPE_SIZE);
    for i in 0..TAPE_SIZE
        invariant
            tape@.len() == TAPE_SIZE,
            out@ == code_bytes(tape@.take(i as int)),
    {
        let b = tape[i];
        assert(tape@.take(i as int + 1).drop_last() == tape@.take(i as int));
        if is_opcode_byte(b) || b == ZERO_CHAR {
            out.push(b);
        }
    }
    assert(tape@.take(TAPE_SIZE as int) == tape@);
    out
}

/// Replicator family of a loop body.
///   A  — the body holds `}`, `<` and `,` (head 0 is the copy destination)
///   B  — the body holds `>`, `{` and `.` (head 1 is the copy destination)
///   AB — the body holds both trigrams (it copies in both directions)
///   NotReplicator — not a replicator
#[derive(Copy, Clone, Debug, PartialEq, Eq, Structural, Hash)]
pub enum Family {
    NotReplicator,
    A,
    B,
    AB,
}

impl Family {
    /// The family's name as it appears in the replicator log.
    pub fn as_str(self) -> (r: &'static str)
        ensures
            self == Family::A ==> r@ == "A"@,
            self == Family::B ==> r@ == "B"@,
            self == Family::AB ==> r@ == "AB"@,
            self == Family::NotReplicator ==> r@ == ""@,
    {
        match self {
            Family::A => "A",
            Family::B => "B",
            Family::AB => "AB",
            Family::NotReplicator => "",
        }
    }
}

/// The family of a loop body, from which of the two trigrams it holds.
pub open spec fn family_of(body: Seq<u8>) -> Family {
    let a = body.contains(OP_H1_RIGHT) && body.contains(OP_H0_LEFT) && body.contains(
        OP_COPY_1_TO_0,
    );
    let b = body.contains(OP_H0_RIGHT) && body.contains(OP_H1_LEFT) && body.contains(
        OP_COPY_0_TO_1,
    );
    if a && b {
        Family::AB
    } else if a {
        Family::A
    } else if b {
        Family::B
    } else {
        Family::NotReplicator
    }
}

/// Classifies a loop body into a replicator family.
pub fn classify_body(body: &[u8]) -> (r: Family)
    ensures
        r == family_of(body@),
{
    let mut h1r = false;
    let mut h0l = false;
    let mut c10 = false;
    let mut h0r = false;
    let mut h1l = false;
    let mut c01 = false;
    let n = body.len();
    for i in 0..n
        invariant
            n == body@.len(),
            h1r == (exists|k: int| 0 <= k < i && body@[k] == OP_H1_RIGHT),
            h0l == (exists|k: int| 0 <= k < i && body@[k] == OP_H0_LEFT),
            c10 == (exists|k: int| 0 <= k < i && body@[k] == OP_COPY_1_TO_0),
            h0r == (exists|k: int| 0 <= k < i && body@[k] == OP_H0_RIGHT),
            h1l == (exists|k: int| 0 <= k < i && body@[k] == OP_H1_LEFT),
            c01 == (exists|k: int| 0 <= k < i && body@[k] == OP_COPY_0_TO_1),
    {
        let b = body[i];
        if b == OP_H1_RIGHT {
            h1r = true;
        } else if b == OP_H0_LEFT {
            h0l = true;
        } else if b == OP_COPY_1_TO_0 {
            c10 = true;
        } else if b == OP_H0_RIGHT {
            h0r = true;
        } else if b == OP_H1_LEFT {
            h1l = true;
        } else if b == OP_COPY_0_TO_1 {
            c01 = true;
        }
    }
    let a = h1r && h0l && c10;
    let b = h0r && h1l && c01;
    if a && b {
        Family::AB
    } else if a {
        Family::A
    } else if b {
        Family::B
    } else {
        Family::NotReplicator
    }
}

/// Two scan origins whose candidate matches agree have the same match.
proof fn lemma_backward_match_eq(s: Seq<u8>, p: int, q: int)
    requires
        forall|j: int| is_backward_match(s, p, j) <==> is_backward_match(s, q, j),
    ensures
        backward_match(s, p) == backward_match(s, q),
{
    if let Some(c) = backward_match(s, p) {
        assert(is_backward_match(s, p, c));
        lemma_backward_match_unique(s, q, c);
    } else if let Some(c) = backward_match(s, q) {
        assert(is_backward_match(s, q, c));
        assert(is_backward_match(s, p, c));
    }
}

/// A position left of `i` where the `[` outnumber the `]` up to `i` means
/// that scanning left from `i` does find a match.
proof fn lemma_backward_match_exists(s: Seq<u8>, i: int, k: int)
    requires
        0 <= k < i,
        bracket_balance(s, k, i) >= 1,
    ensures
        backward_match(s, i) is Some,
    decreases i - k,
{
    if exists|m: int| k < m < i && #[trigger] bracket_balance(s, m, i) >= 1 {
        let m = choose|m: int| k < m < i && #[trigger] bracket_balance(s, m, i) >= 1;
        lemma_backward_match_exists(s, i, m);
    } else {
        lemma_balance_front(s, k, i);
        assert(bracket_balance(s, i, i) == 0);
        assert(is_backward_match(s, i, k));
    }
}

/// How the backward match from `i + 1` follows from the byte at `i`.
proof fn lemma_backward_match_step(s: Seq<u8>, i: int)
    requires
        0 <= i < s.len(),
    ensures
        s[i] == OP_LOOP_OPEN ==> backward_match(s, i + 1) == Some(i),
        s[i] != OP_LOOP_OPEN && s[i] != OP_LOOP_CLOSE ==> backward_match(s, i + 1)
            == backward_match(s, i),
        s[i] == OP_LOOP_CLOSE ==> backward_match(s, i + 1) == match backward_match(s, i) {
            Some(j) => backward_match(s, j),
            None => None,
        },
{
    assert(bracket_balance(s, i, i) == 0);
    assert forall|k: int| k <= i implies #[trigger] bracket_balance(s, k, i + 1)
        == bracket_balance(s, k, i) + bracket_weight(s[i]) by {}
    if s[i] == OP_LOOP_OPEN {
        assert(bracket_balance(s, i, i + 1) == 1);
        assert(is_backward_match(s, i + 1, i));
        lemma_backward_match_unique(s, i + 1, i);
    } else if s[i] != OP_LOOP_CLOSE {
        assert forall|j: int| is_backward_match(s, i + 1, j) <==> is_backward_match(s, i, j) by {
            if is_backward_match(s, i + 1, j) {
                assert(bracket_balance(s, j, i + 1) == bracket_balance(s, j, i));
                assert forall|k: int| j < k < i implies #[trigger] bracket_balance(s, k, i)
                    <= 0 by {
                    assert(bracket_balance(s, k, i + 1) <= 0);
                }
            }
            if is_backward_match(s, i, j) {
                assert forall|k: int| j < k < i + 1 implies #[trigger] bracket_balance(
                    s,
                    k,
                    i + 1,
                ) <= 0 by {
                    if k < i {
                        assert(bracket_balance(s, k, i) <= 0);
                    }
                }
            }
        }
        lemma_backward_match_eq(s, i + 1, i);
    } else {
        if let Some(j0) = backward_match(s, i) {
            assert(is_backward_match(s, i, j0));
            assert forall|k: int| k <= j0 implies #[trigger] bracket_balance(s, k, i + 1)
                == bracket_balance(s, k, j0) by {
                lemma_balance_split(s, k, j0, i);
            }
            assert forall|k: int| j0 < k <= i implies #[trigger] bracket_balance(s, k, i + 1)
                <= -1 by {
                if k < i {
                    assert(bracket_balance(s, k, i) <= 0);
                }
            }
            assert(bracket_balance(s, j0, j0) == 0);
            assert forall|j: int| is_backward_match(s, i + 1, j) <==> is_backward_match(
                s,
                j0,
                j,
            ) by {
                if is_backward_match(s, i + 1, j) {
                    if j >= j0 {
                        assert(bracket_balance(s, j, i + 1) <= 0);
                    }
                    assert forall|k: int| j < k < j0 implies #[trigger] bracket_balance(s, k, j0)
                        <= 0 by {
                        assert(bracket_balance(s, k, i + 1) <= 0);
                    }
                }
                if is_backward_match(s, j0, j) {
                    assert forall|k: int| j < k < i + 1 implies #[trigger] bracket_balance(
                        s,
                        k,
                        i + 1,
                    ) <= 0 by {
                        if k < j0 {
                            assert(bracket_balance(s, k, j0) <= 0);
                        }
                    }
                }
            }
            lemma_backward_match_eq(s, i + 1, j0);
        } else {
            if let Some(j) = backward_match(s, i + 1) {
                assert(is_backward_match(s, i + 1, j));
                if j < i {
                    lemma_backward_match_exists(s, i, j);
                }
            }
        }
    }
}

/// The positions of the `[` still open when a left-to-right scan reaches
/// position `i`, the innermost last: each is the backward match of the one
/// scanned after it.
pub open spec fn open_loops(s: Seq<u8>, i: int) -> Seq<int>
    decreases i,
{
    if i <= 0 {
        Seq::empty()
    } else {
        match backward_match(s, i) {
            Some(j) => if 0 <= j < i {
                open_loops(s, j).push(j)
            } else {
                Seq::empty()
            },
            None => Seq::empty(),
        }
    }
}

/// The replicator loop that the `]` at position `i` closes, if any: its
/// family and its pattern, `[` and `]` included.
pub open spec fn loop_at(s: Seq<u8>, i: int) -> Option<(Family, Seq<u8>)> {
    if s[i] == OP_LOOP_CLOSE {
        match backward_match(s, i) {
            Some(j) => {
                let f = family_of(s.subrange(j + 1, i));
                if f != Family::NotReplicator {
                    Some((f, s.subrange(j, i + 1)))
                } else {
                    None
                }
            },
            None => None,
        }
    } else {
        None
    }
}

/// The replicator loops closed in `s[0..n)`, in the order of their `]`.
pub open spec fn replicator_loops_upto(s: Seq<u8>, n: int) -> Seq<(Family, Seq<u8>)>
    decreases n,
{
    if n <= 0 {
        Seq::empty()
    } else {
        let prev = replicator_loops_upto(s, n - 1);
        match loop_at(s, n - 1) {
            Some(l) => prev.push(l),
            None => prev,
        }
    }
}

/// Every well-formed `[...]` of `s` whose body qualifies as a replicator, in
/// the order of its `]`; nested loops are reported independently.
pub open spec fn replicator_loops(s: Seq<u8>) -> Seq<(Family, Seq<u8>)> {
    replicator_loops_upto(s, s.len() as int)
}

/// The family and pattern bytes of each loop.
pub open spec fn loops_view(v: Seq<(Family, Vec<u8>)>) -> Seq<(Family, Seq<u8>)> {
    v.map_values(|l: (Family, Vec<u8>)| (l.0, l.1@))
}

/// The positions as integers.
pub open spec fn positions_view(v: Seq<usize>) -> Seq<int> {
    v.map_values(|p: usize| p as int)
}

/// Finds every well-formed `[...]` in a compressed tape whose body qualifies
/// as a replicator. Brackets are matched left to right with a stack, so
/// nested loops are paired correctly; each matching pair is reported on its
/// own (an outer loop and a qualifying inner loop both count). Each loop is
/// returned with its family and its pattern, `[` and `]` included.
pub fn find_replicator_loops(compressed: &[u8]) -> (loops: Vec<(Family, Vec<u8>)>)
    ensures
        loops_view(loops@) == replicator_loops(compressed@),
{
    let ghost s = compressed@;
    let mut stack: Vec<usize> = Vec::new();
    let mut loops: Vec<(Family, Vec<u8>)> = Vec::new();
    let n = compressed.len();
    for i in 0..n
        invariant
            n == s.len(),
            s == compressed@,
            positions_view(stack@) == open_loops(s, i as int),
            loops_view(loops@) == replicator_loops_upto(s, i as int),
    {
        let b = compressed[i];
        proof {
            lemma_backward_match_step(s, i as int);
            if let Some(j) = backward_match(s, i as int) {
                assert(is_backward_match(s, i as int, j));
            }
            if let Some(j) = backward_match(s, i as int + 1) {
                assert(is_backward_match(s, i as int + 1, j));
            }
        }
        let ghost old_loops = loops@;
        if b == OP_LOOP_OPEN {
            stack.push(i);
            assert(positions_view(stack@) =~= open_loops(s, i as int + 1));
        } else if b == OP_LOOP_CLOSE {
            let ghost old_stack = stack@;
            if let Some(open) = stack.pop() {
                assert(positions_view(old_stack).last() == open as int);
                assert(positions_view(stack@) =~= positions_view(old_stack).drop_last());
                assert(backward_match(s, i as int) == Some(open as int));
                proof {
                    if let Some(j) = backward_match(s, open as int) {
                        assert(is_backward_match(s, open as int, j));
                    }
                }
                assert(open_loops(s, i as int + 1) == open_loops(s, open as int));
                assert(positions_view(stack@) =~= open_loops(s, i as int + 1));
                let body = slice_subrange(compressed, open + 1, i);
                let family = classify_body(body);
                if family != Family::NotReplicator {
                    let pattern = slice_to_vec(slice_subrange(compressed, open, i + 1));
                    loops.push((family, pattern));
                    assert(loops_view(loops@) =~= loops_view(old_loops).push(
                        (family, s.subrange(open as int, i as int + 1)),
                    ));
                }
            } else {
                assert(backward_match(s, i as int) is None);
                assert(positions_view(stack@) =~= open_loops(s, i as int + 1));
            }
        } else {
            assert(open_loops(s, i as int + 1) == open_loops(s, i as int));
        }
    }
    loops
}

/// The space character, shown in place of a data byte.
pub const SPACE_CHAR: u8 = 32;

/// A tape as shown in the samples log: its code bytes in place, a space for
/// every other byte.
pub open spec fn rendered(t: Seq<u8>) -> Seq<u8> {
    Seq::new(t.len(), |i: int| if is_code_byte(t[i]) { t[i] } else { SPACE_CHAR })
}

/// Renders a tape for the samples log.
pub fn render_tape(tape: &[u8; TAPE_SIZE]) -> (r: Vec<u8>)
    ensures
        r@ == rendered(tape@),
{
    let mut r: Vec<u8> = Vec::with_capacity(TAPE_SIZE);
    for i in 0..TAPE_SIZE
        invariant
            tape@.len() == TAPE_SIZE,
            r@ == rendered(tape@).take(i as int),
    {
        let b = tape[i];
        if is_opcode_byte(b) || b == ZERO_CHAR {
            r.push(b);
        } else {
            r.push(SPACE_CHAR);
        }
        assert(r@ =~= rendered(tape@).take(i as int + 1));
    }
    assert(rendered(tape@).take(TAPE_SIZE as int) =~= rendered(tape@));
    r
}

/// The picked tapes, rendered for the samples log, in the order of `picks`.
pub fn render_picks(tapes: &[[u8; TAPE_SIZE]], picks: &[usize]) -> (samples: Vec<Vec<u8>>)
    requires
        forall|i: int| 0 <= i < picks@.len() ==> #[trigger] picks@[i] < tapes@.len(),
    ensures
        samples@.len() == picks@.len(),
        forall|i: int|
            0 <= i < picks@.len() ==> (#[trigger] samples@[i])@ == rendered(
                tapes@[picks@[i] as int]@,
            ),
{
    let n = picks.len();
    let mut samples: Vec<Vec<u8>> = Vec::with_capacity(n);
    for i in 0..n
        invariant
            n == picks@.len(),
            forall|i: int| 0 <= i < picks@.len() ==> #[trigger] picks@[i] < tapes@.len(),
            samples@.len() == i,
            forall|k: int|
                0 <= k < i ==> (#[trigger] samples@[k])@ == rendered(tapes@[picks@[k] as int]@),
    {
        let idx = picks[i];
        samples.push(render_tape(&tapes[idx]));
    }
    samples
}

/// `SAMPLE_COUNT` distinct tapes picked at random, rendered for the samples
/// log (ASCII bytes).
pub fn sample_tapes(tapes: &[[u8; TAPE_SIZE]]) -> (samples: Vec<Vec<u8>>)
    requires
        SAMPLE_COUNT <= tapes@.len(),
    ensures
        samples@.len() == SAMPLE_COUNT,
        exists|picks: Seq<usize>|
            picks.len() == SAMPLE_COUNT && picks.no_duplicates() && (forall|i: int|
                0 <= i < picks.len() ==> #[trigger] picks[i] < tapes@.len()) && (forall|i: int|
                0 <= i < picks.len() ==> (#[trigger] samples@[i])@ == rendered(
                    tapes@[picks[i] as int]@,
                )),
{
    let mut rng = thread_generator();
    let picks = sample_indices(&mut rng, tapes.len(), SAMPLE_COUNT);
    let samples = render_picks(tapes, picks.as_slice());
    assert(forall|i: int|
        0 <= i < picks@.len() ==> (#[trigger] samples@[i])@ == rendered(
            tapes@[picks@[i] as int]@,
        ));
    samples
}

/// How many of the bar's `BAR_WIDTH` cells are filled after `current` of
/// `total` steps (a `total` of 0 counts as 1).
pub open spec fn bar_fill(current: int, total: int) -> int {
    current * BAR_WIDTH / (if total > 0 { total } else { 1 })
}

/// The progress bar: `[`, the filled cells as `=`, the empty cells as `.`,
/// and `]`.
pub open spec fn progress_bar(filled: nat) -> Seq<char> {
    seq!['['] + Seq::new(filled, |_i: int| '=') + Seq::new(
        (BAR_WIDTH - filled) as nat,
        |_i: int| '.',
    ) + seq![']']
}

/// The number of filled cells of the progress bar.
pub fn filled_cells(current: usize, total: usize) -> (filled: usize)
    requires
        current * BAR_WIDTH <= usize::MAX,
    ensures
        filled == bar_fill(current as int, total as int),
{
    let denominator = if total > 0 { total } else { 1 };
    (current * BAR_WIDTH) / denominator
}

/// Renders the progress bar after `current` of `total` steps. The bar
/// cannot overflow: `current` may not fill more than `BAR_WIDTH` cells.
pub fn make_progress_bar(current: usize, total: usize) -> (bar: String)
    requires
        current * BAR_WIDTH <= usize::MAX,
        bar_fill(current as int, total as int) <= BAR_WIDTH,
    ensures
        bar@ == progress_bar(bar_fill(current as int, total as int) as nat),
{
    let filled = filled_cells(current, total);
    let empty = BAR_WIDTH - filled;
    proof {
        reveal_strlit("[");
        reveal_strlit("=");
        reveal_strlit(".");
        reveal_strlit("]");
    }
    let mut bar = String::new();
    bar.append("[");
    for i in 0..filled
        invariant
            bar@ == seq!['['] + Seq::new(i as nat, |_i: int| '='),
    {
        proof {
            reveal_strlit("=");
        }
        bar.append("=");
        assert(bar@ =~= seq!['['] + Seq::new(i as nat + 1, |_i: int| '='));
    }
    let ghost head = bar@;
    for i in 0..empty
        invariant
            bar@ == head + Seq::new(i as nat, |_i: int| '.'),
    {
        proof {
            reveal_strlit(".");
        }
        bar.append(".");
        assert(bar@ =~= head + Seq::new(i as nat + 1, |_i: int| '.'));
    }
    bar.append("]");
    assert(bar@ =~= progress_bar(filled as nat));
    bar
}

/// Whether advancing the progress bar to `current` of `total` steps changes
/// its fill, so that it must be redrawn.
pub fn needs_redraw(current: usize, total: usize) -> (r: bool)
    requires
        current * BAR_WIDTH <= usize::MAX,
    ensures
        r == (bar_fill(current as int, total as int) != bar_fill(
            if current > 0 { current - 1 } else { 0 },
            total as int,
        )),
{
    let previous = current.saturating_sub(1);
    filled_cells(current, total) != filled_cells(previous, total)
}

/// Distinct code skeletons can never outnumber distinct tapes: equal tapes
/// have equal skeletons.
pub proof fn lemma_unique_code_at_most_unique_tapes(tapes: Seq<[u8; TAPE_SIZE]>)
    ensures
        skeletons(tapes).to_set().len() <= tape_contents(tapes).to_set().len(),
{
    let c = tape_contents(tapes);
    let f = |t: Seq<u8>| skeleton_of(t);
    assert(skeletons(tapes).to_set() =~= c.to_set().map(f)) by {
        assert forall|x: Seq<u8>| skeletons(tapes).to_set().contains(x) implies c.to_set().map(
            f,
        ).contains(x) by {
            let i = choose|i: int| 0 <= i < skeletons(tapes).len() && skeletons(tapes)[i] == x;
            assert(c.to_set().contains(c[i]));
        }
        assert forall|x: Seq<u8>| c.to_set().map(f).contains(x) implies skeletons(
            tapes,
        ).to_set().contains(x) by {
            let y = choose|y: Seq<u8>| c.to_set().contains(y) && f(y) == x;
            let i = choose|i: int| 0 <= i < c.len() && c[i] == y;
            assert(skeletons(tapes)[i] == x);
        }
    }
    vstd::seq_lib::seq_to_set_is_finite(c);
    vstd::set_lib::lemma_map_size_bound(c.to_set(), c.to_set().map(f), f);
}

/// How often byte `b` occurs in `s`.
pub open spec fn occurrences(s: Seq<u8>, b: u8) -> nat {
    s.to_multiset().count(b)
}

/// The opcode bytes of a soup are exactly the bytes counted under the ten
/// opcode values of `byte_counts`.
pub proof fn lemma_opcode_count_is_sum_of_byte_counts(s: Seq<u8>)
    ensures
        count_opcodes(s) == occurrences(s, OP_H0_LEFT) + occurrences(s, OP_H0_RIGHT)
            + occurrences(s, OP_H1_LEFT) + occurrences(s, OP_H1_RIGHT) + occurrences(s, OP_INC)
            + occurrences(s, OP_DEC) + occurrences(s, OP_COPY_0_TO_1) + occurrences(
            s,
            OP_COPY_1_TO_0,
        ) + occurrences(s, OP_LOOP_OPEN) + occurrences(s, OP_LOOP_CLOSE),
    decreases s.len(),
{
    if s.len() == 0 {
        assert(s.to_multiset() =~= vstd::multiset::Multiset::empty());
    } else {
        lemma_opcode_count_is_sum_of_byte_counts(s.drop_last());
        assert(s.drop_last().push(s.last()) =~= s);
        assert(s.to_multiset() =~= s.drop_last().to_multiset().insert(s.last()));
    }
}

/// Every reported loop is a `[...]` pair whose body qualifies as a
/// replicator of the reported family.
pub proof fn lemma_replicator_loops_well_formed(s: Seq<u8>, n: int)
    requires
        0 <= n <= s.len(),
    ensures
        forall|k: int|
            0 <= k < replicator_loops_upto(s, n).len() ==> {
                let l = #[trigger] replicator_loops_upto(s, n)[k];
                &&& l.1.len() >= 2
                &&& l.1[0] == OP_LOOP_OPEN
                &&& l.1.last() == OP_LOOP_CLOSE
                &&& l.0 != Family::NotReplicator
                &&& l.0 == family_of(l.1.subrange(1, l.1.len() - 1))
            },
    decreases n,
{
    if n > 0 {
        lemma_replicator_loops_well_formed(s, n - 1);
        let i = n - 1;
        if let Some(l) = loop_at(s, i) {
            let j = backward_match(s, i).unwrap();
            assert(is_backward_match(s, i, j));
            lemma_balance_front(s, j, i);
            assert(bracket_balance(s, i, i) == 0);
            if j + 1 < i {
                assert(bracket_balance(s, j + 1, i) <= 0);
            }
            assert(s[j] == OP_LOOP_OPEN);
            assert(l.1.subrange(1, l.1.len() - 1) =~= s.subrange(j + 1, i));
        }
    }
}

/// Whether some byte of `body` equals `b`.
pub open spec fn holds_byte(body: Seq<u8>, b: u8) -> bool {
    exists|k: int| 0 <= k < body.len() && body[k] == b
}

/// A body copies into head 0 (family A, alone or within AB) exactly when it
/// holds all three of `}`, `<` and `,`; it copies into head 1 (family B,
/// alone or within AB) exactly when it holds all three of `>`, `{` and `.`.
/// Any other body is not a replicator.
pub proof fn lemma_family_follows_trigrams(body: Seq<u8>)
    ensures
        (family_of(body) == Family::A || family_of(body) == Family::AB) <==> (holds_byte(
            body,
            OP_H1_RIGHT,
        ) && holds_byte(body, OP_H0_LEFT) && holds_byte(body, OP_COPY_1_TO_0)),
        (family_of(body) == Family::B || family_of(body) == Family::AB) <==> (holds_byte(
            body,
            OP_H0_RIGHT,
        ) && holds_byte(body, OP_H1_LEFT) && holds_byte(body, OP_COPY_0_TO_1)),
        family_of(body) == Family::NotReplicator <==> !(holds_byte(body, OP_H1_RIGHT)
            && holds_byte(body, OP_H0_LEFT) && holds_byte(body, OP_COPY_1_TO_0)) && !(
        holds_byte(body, OP_H0_RIGHT) && holds_byte(body, OP_H1_LEFT) && holds_byte(
            body,
            OP_COPY_0_TO_1,
        )),
{
}

/// A skeleton keeps a tape's opcode bytes in place and zeroes every other
/// byte, so it is never a data byte: each of its bytes is an opcode or 0.
pub proof fn lemma_skeleton_keeps_exactly_opcodes(t: Seq<u8>)
    ensures
        skeleton_of(t).len() == t.len(),
        forall|i: int| 0 <= i < t.len() && is_opcode(t[i]) ==> #[trigger] skeleton_of(t)[i] == t[i],
        forall|i: int| 0 <= i < t.len() && !is_opcode(t[i]) ==> #[trigger] skeleton_of(t)[i] == 0,
        forall|i: int|
            0 <= i < t.len() ==> is_opcode(#[trigger] skeleton_of(t)[i]) || skeleton_of(t)[i] == 0,
{
}

/// Two tapes have the same skeleton exactly when they agree wherever either
/// holds an opcode: data bytes, the character `0` among them, never tell
/// two skeletons apart.
pub proof fn lemma_same_skeleton_iff_same_code(a: Seq<u8>, b: Seq<u8>)
    requires
        a.len() == b.len(),
    ensures
        skeleton_of(a) == skeleton_of(b) <==> (forall|i: int|
            0 <= i < a.len() && (is_opcode(a[i]) || is_opcode(b[i])) ==> a[i] == b[i]),
{
    if skeleton_of(a) == skeleton_of(b) {
        assert forall|i: int| 0 <= i < a.len() && (is_opcode(a[i]) || is_opcode(b[i])) implies a[i]
            == b[i] by {
            assert(skeleton_of(a)[i] == skeleton_of(b)[i]);
        }
    }
    if forall|i: int| 0 <= i < a.len() && (is_opcode(a[i]) || is_opcode(b[i])) ==> a[i] == b[i] {
        assert(skeleton_of(a) =~= skeleton_of(b));
    }
}

/// The `]` at position `i` closes a loop whose body is a replicator.
pub open spec fn closes_replicator(s: Seq<u8>, i: int) -> bool {
    &&& s[i] == OP_LOOP_CLOSE
    &&& backward_match(s, i) is Some
    &&& family_of(s.subrange(backward_match(s, i)->0 + 1, i)) != Family::NotReplicator
}

/// How many positions before `n` close a replicator loop.
pub open spec fn closing_count(s: Seq<u8>, n: int) -> nat
    decreases n,
{
    if n <= 0 {
        0
    } else {
        closing_count(s, n - 1) + if closes_replicator(s, n - 1) {
            1nat
        } else {
            0nat
        }
    }
}

proof fn lemma_closing_count_monotone(s: Seq<u8>, i: int, m: int)
    requires
        0 <= i <= m,
    ensures
        closing_count(s, i) <= closing_count(s, m),
        closes_replicator(s, i) && i < m ==> closing_count(s, i) < closing_count(s, m),
    decreases m - i,
{
    if i < m {
        lemma_closing_count_monotone(s, i, m - 1);
    }
}

proof fn lemma_loops_upto_positions(s: Seq<u8>, n: int)
    requires
        0 <= n <= s.len(),
    ensures
        replicator_loops_upto(s, n).len() == closing_count(s, n),
        forall|i: int|
            0 <= i < n && #[trigger] closes_replicator(s, i) ==> replicator_loops_upto(s, n)[closing_count(
                s,
                i,
            ) as int] == (
                family_of(s.subrange(backward_match(s, i)->0 + 1, i)),
                s.subrange(backward_match(s, i)->0, i + 1),
            ),
    decreases n,
{
    if n > 0 {
        lemma_loops_upto_positions(s, n - 1);
        assert forall|i: int|
            0 <= i < n && #[trigger] closes_replicator(s, i) implies replicator_loops_upto(s, n)[closing_count(
            s,
            i,
        ) as int] == (
            family_of(s.subrange(backward_match(s, i)->0 + 1, i)),
            s.subrange(backward_match(s, i)->0, i + 1),
        ) by {
            if i < n - 1 {
                lemma_closing_count_monotone(s, i, n - 1);
            }
        }
    }
}

/// Every replicator loop is reported once per occurrence, in the order of
/// its `]`: the list holds one entry for each position closing a replicator
/// loop, and the entry of such a position `i` (the one after the entries of
/// all earlier such positions) is its family and its pattern from the
/// matching `[` to `i`. Equal loops at different positions are all reported.
pub proof fn lemma_every_loop_reported(s: Seq<u8>)
    ensures
        replicator_loops(s).len() == closing_count(s, s.len() as int),
        forall|i: int|
            0 <= i < s.len() && #[trigger] closes_replicator(s, i) ==> replicator_loops(s)[closing_count(
                s,
                i,
            ) as int] == (
                family_of(s.subrange(backward_match(s, i)->0 + 1, i)),
                s.subrange(backward_match(s, i)->0, i + 1),
            ),
{
    lemma_loops_upto_positions(s, s.len() as int);
}

proof fn lemma_balance_shift(s: Seq<u8>, t: Seq<u8>, a: int, b: int, d: int)
    requires
        a <= b,
        forall|k: int| a <= k < b ==> s[k + d] == t[k],
    ensures
        bracket_balance(s, a + d, b + d) == bracket_balance(t, a, b),
    decreases b - a,
{
    if b > a {
        lemma_balance_shift(s, t, a, b - 1, d);
        assert(s[(b - 1) + d] == t[b - 1]);
    }
}

/// In `x + x`, a position of the first copy sees only the first copy.
proof fn lemma_doubled_prefix_loop(x: Seq<u8>, i: int)
    requires
        0 <= i < x.len(),
    ensures
        loop_at(x + x, i) == loop_at(x, i),
{
    let s = x + x;
    assert forall|j: int| is_backward_match(s, i, j) <==> is_backward_match(x, i, j) by {
        if 0 <= j < i {
            lemma_balance_shift(s, x, j, i, 0);
            assert forall|k: int| j < k < i implies bracket_balance(s, k, i) == bracket_balance(
                x,
                k,
                i,
            ) by {
                lemma_balance_shift(s, x, k, i, 0);
            }
        }
    }
    if let Some(c) = backward_match(x, i) {
        assert(is_backward_match(x, i, c));
        lemma_backward_match_unique(s, i, c);
    } else if let Some(c) = backward_match(s, i) {
        assert(is_backward_match(s, i, c));
        assert(is_backward_match(x, i, c));
    }
    if let Some(j) = backward_match(x, i) {
        assert(is_backward_match(x, i, j));
        assert(s.subrange(j + 1, i) =~= x.subrange(j + 1, i));
        assert(s.subrange(j, i + 1) =~= x.subrange(j, i + 1));
    }
}

/// In `x + x`, a `]` of the second copy whose match lies in its own copy
/// closes the same loop as in `x`.
proof fn lemma_doubled_suffix_loop(x: Seq<u8>, i: int)
    requires
        0 <= i < x.len(),
        x[i] == OP_LOOP_CLOSE ==> backward_match(x, i) is Some,
    ensures
        loop_at(x + x, i + x.len()) == loop_at(x, i),
{
    let s = x + x;
    let l = x.len() as int;
    assert(s[i + l] == x[i]);
    if x[i] == OP_LOOP_CLOSE {
        let j = backward_match(x, i)->0;
        assert(is_backward_match(x, i, j));
        lemma_balance_shift(s, x, j, i, l);
        assert forall|k: int| j + l < k < i + l implies #[trigger] bracket_balance(s, k, i + l)
            <= 0 by {
            lemma_balance_shift(s, x, k - l, i, l);
            assert(bracket_balance(x, k - l, i) <= 0);
        }
        assert(is_backward_match(s, i + l, j + l));
        lemma_backward_match_unique(s, i + l, j + l);
        assert(s.subrange(j + l + 1, i + l) =~= x.subrange(j + 1, i));
        assert(s.subrange(j + l, i + l + 1) =~= x.subrange(j, i + 1));
    }
}

proof fn lemma_doubled_prefix_loops(x: Seq<u8>, n: int)
    requires
        0 <= n <= x.len(),
    ensures
        replicator_loops_upto(x + x, n) == replicator_loops_upto(x, n),
    decreases n,
{
    if n > 0 {
        lemma_doubled_prefix_loops(x, n - 1);
        lemma_doubled_prefix_loop(x, n - 1);
    }
}

proof fn lemma_doubled_suffix_loops(x: Seq<u8>, n: int)
    requires
        0 <= n <= x.len(),
        forall|i: int|
            0 <= i < x.len() && x[i] == OP_LOOP_CLOSE ==> #[trigger] backward_match(x, i) is Some,
    ensures
        replicator_loops_upto(x + x, x.len() + n) == replicator_loops(x) + replicator_loops_upto(
            x,
            n,
        ),
    decreases n,
{
    if n == 0 {
        lemma_doubled_prefix_loops(x, x.len() as int);
        assert(replicator_loops_upto(x, 0) =~= Seq::<(Family, Seq<u8>)>::empty());
        assert(replicator_loops(x) + replicator_loops_upto(x, 0) =~= replicator_loops(x));
    } else {
        lemma_doubled_suffix_loops(x, n - 1);
        lemma_doubled_suffix_loop(x, n - 1);
        let prev = replicator_loops_upto(x, n - 1);
        if let Some(l) = loop_at(x, n - 1) {
            assert(replicator_loops(x) + prev.push(l) =~= (replicator_loops(x) + prev).push(l));
        }
    }
}

/// Loops are found wherever they stand: for a compressed tape `x` in which
/// every `]` is matched, the loops of `x` written twice are the loops of
/// `x` followed by the loops of `x` again, repeats included.
pub proof fn lemma_doubled_tape_doubles_loops(x: Seq<u8>)
    requires
        forall|i: int|
            0 <= i < x.len() && x[i] == OP_LOOP_CLOSE ==> #[trigger] backward_match(x, i) is Some,
    ensures
        replicator_loops(x + x) == replicator_loops(x) + replicator_loops(x),
{
    lemma_doubled_suffix_loops(x, x.len() as int);
}

} // verus!
