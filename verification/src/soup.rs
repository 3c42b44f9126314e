//! The soup: a population of tapes that are shuffled, paired, run together
//! and mutated, epoch after epoch.

use vstd::prelude::*;
use rand::rngs::SmallRng;
use rayon::iter::ParallelIterator;
use rayon::slice::ParallelSliceMut;
use crate::constants::{
    BAR_WIDTH, COMBINED_SIZE, EVAL_STEPS, MAX_STEPS, MUTATION_RATE_DEN, MUTATION_RATE_NUM, TAPE_SIZE,
};
use crate::interpreter::{is_write_op, lemma_tape_without_writes_is_unchanged, run, run_result};
use crate::random::{random_below, random_tape, shuffle_tapes, small_rng_from_entropy, thread_generator};
use crate::stats::tape_contents;

verus! {

/// Two tapes after they interact: concatenated into one combined tape, run
/// by the interpreter, and split back into halves.
pub open spec fn interact(a: Seq<u8>, b: Seq<u8>) -> (Seq<u8>, Seq<u8>) {
    let r = run_result(a + b);
    (r.subrange(0, TAPE_SIZE as int), r.subrange(TAPE_SIZE as int, COMBINED_SIZE as int))
}

/// Tapes `2k` and `2k + 1` interact, for every `k`.
pub open spec fn interact_all(c: Seq<Seq<u8>>) -> Seq<Seq<u8>> {
    Seq::new(
        c.len(),
        |i: int|
            if i % 2 == 0 {
                interact(c[i], c[i + 1]).0
            } else {
                interact(c[i - 1], c[i]).1
            },
    )
}

/// Lets the first two tapes of a slice interact: they are joined into one
/// combined tape, the interpreter runs on it, and the halves are written
/// back. Any further tapes are left alone.
pub fn interact_pair(pair: &mut [[u8; TAPE_SIZE]])
    requires
        old(pair)@.len() >= 2,
    ensures
        final(pair)@.len() == old(pair)@.len(),
        forall|k: int| 2 <= k < old(pair)@.len() ==> #[trigger] final(pair)@[k] == old(pair)@[k],
        final(pair)@[0]@ == interact(old(pair)@[0]@, old(pair)@[1]@).0,
        final(pair)@[1]@ == interact(old(pair)@[0]@, old(pair)@[1]@).1,
{
    let first: [u8; TAPE_SIZE] = pair[0];
    let second: [u8; TAPE_SIZE] = pair[1];
    let mut combined = [0u8; COMBINED_SIZE];
    for i in 0..TAPE_SIZE
        invariant
            combined@.len() == COMBINED_SIZE,
            first@.len() == TAPE_SIZE,
            second@.len() == TAPE_SIZE,
            forall|k: int| 0 <= k < i ==> combined@[k] == first@[k],
            forall|k: int| 0 <= k < i ==> combined@[TAPE_SIZE + k] == second@[k],
    {
        combined[i] = first[i];
        combined[TAPE_SIZE + i] = second[i];
    }
    assert(combined@ =~= first@ + second@);
    run(&mut combined);
    let ghost r = combined@;
    let mut a = [0u8; TAPE_SIZE];
    let mut b = [0u8; TAPE_SIZE];
    for i in 0..TAPE_SIZE
        invariant
            combined@ == r,
            r.len() == COMBINED_SIZE,
            a@.len() == TAPE_SIZE,
            b@.len() == TAPE_SIZE,
            forall|k: int| 0 <= k < i ==> a@[k] == r[k],
            forall|k: int| 0 <= k < i ==> b@[k] == r[TAPE_SIZE + k],
    {
        a[i] = combined[i];
        b[i] = combined[TAPE_SIZE + i];
    }
    assert(a@ =~= r.subrange(0, TAPE_SIZE as int));
    assert(b@ =~= r.subrange(TAPE_SIZE as int, COMBINED_SIZE as int));
    pair[0] = a;
    pair[1] = b;
}

/// rayon's `par_chunks_mut(2)` and `for_each` with `interact_pair`: the
/// slice is cut into consecutive, disjoint pairs and each pair interacts,
/// in parallel. An odd number of tapes would leave a last chunk of one tape,
/// on which `interact_pair` panics.
#[verifier::external_body]
fn interact_pairs(tapes: &mut Vec<[u8; TAPE_SIZE]>)
    requires
        old(tapes)@.len() % 2 == 0,
    ensures
        final(tapes)@.len() == old(tapes)@.len(),
        tape_contents(final(tapes)@) == interact_all(tape_contents(old(tapes)@)),
{
    tapes.par_chunks_mut(2).for_each(|pair| interact_pair(pair));
}

/// The number of background mutations per epoch for a soup of
/// `total_bytes` bytes: `total_bytes` times the mutation rate, rounded to the
/// nearest integer, halves up.
pub open spec fn mutation_count(total_bytes: int) -> int {
    (total_bytes * MUTATION_RATE_NUM + MUTATION_RATE_DEN as int / 2) / (MUTATION_RATE_DEN as int)
}

/// The tapes after the writes `w`, in order: write `(t, b, v)` sets byte `b`
/// of tape `t` to `v`.
pub open spec fn apply_writes(c: Seq<Seq<u8>>, w: Seq<(int, int, u8)>) -> Seq<Seq<u8>>
    decreases w.len(),
{
    if w.len() == 0 {
        c
    } else {
        let prev = apply_writes(c, w.drop_last());
        let (t, b, v) = w.last();
        prev.update(t, prev[t].update(b, v))
    }
}

/// Every write targets a byte of one of `n` tapes.
pub open spec fn writes_in_range(w: Seq<(int, int, u8)>, n: int) -> bool {
    forall|i: int| 0 <= i < w.len() ==> 0 <= (#[trigger] w[i]).0 < n && 0 <= w[i].1 < TAPE_SIZE
}

/// `after` is a possible result of one epoch on the tapes `before`: some
/// permutation of them, whose consecutive pairs interacted, then hit by
/// `mutation_count` writes at random places.
pub open spec fn is_epoch_outcome(before: Seq<[u8; TAPE_SIZE]>, after: Seq<[u8; TAPE_SIZE]>) -> bool {
    exists|shuffled: Seq<[u8; TAPE_SIZE]>, w: Seq<(int, int, u8)>|
        shuffled.to_multiset() == before.to_multiset() && shuffled.len() == before.len() && w.len()
            == mutation_count(before.len() * TAPE_SIZE) && writes_in_range(w, before.len() as int)
            && tape_contents(after) == apply_writes(interact_all(tape_contents(shuffled)), w)
}

/// Each write `(t, b, v)` with its positions as integers.
pub open spec fn writes_view(w: Seq<(usize, usize, u8)>) -> Seq<(int, int, u8)> {
    w.map_values(|x: (usize, usize, u8)| (x.0 as int, x.1 as int, x.2))
}

/// The number of background mutations for a soup of `total_bytes` bytes.
pub fn mutations_for(total_bytes: usize) -> (n: usize)
    ensures
        n == mutation_count(total_bytes as int),
        n <= total_bytes,
{
    let scaled: u128 = (total_bytes as u128) * (MUTATION_RATE_NUM as u128) + (MUTATION_RATE_DEN as u128) / 2;
    let n = scaled / (MUTATION_RATE_DEN as u128);
    assert(n <= total_bytes);
    n as usize
}

/// What the run loop does after an epoch.
#[derive(Copy, Clone, Debug, PartialEq, Eq, Structural)]
pub enum RunAction {
    /// Print and log a statistics row; the progress bar starts afresh.
    Report,
    /// Redraw the progress bar at this many epochs into the interval.
    Redraw(usize),
    /// Nothing to show.
    Keep,
}

/// The decision after epoch number `epoch_count`, given the fill of the bar
/// last drawn: a report every `EVAL_STEPS` epochs, else a redraw when the
/// bar's fill has changed. Returns the action and the fill now drawn.
pub open spec fn progress_decision(epoch_count: int, last_filled: int) -> (RunAction, int) {
    if epoch_count % EVAL_STEPS as int == 0 {
        (RunAction::Report, 0)
    } else {
        let progress = epoch_count % EVAL_STEPS as int;
        let filled = progress * BAR_WIDTH / EVAL_STEPS as int;
        if filled != last_filled {
            (RunAction::Redraw(progress as usize), filled)
        } else {
            (RunAction::Keep, last_filled)
        }
    }
}

/// What to show after epoch number `epoch_count`, and the bar fill shown.
pub fn progress_step(epoch_count: usize, last_filled: usize) -> (r: (RunAction, usize))
    ensures
        (r.0, r.1 as int) == progress_decision(epoch_count as int, last_filled as int),
{
    if epoch_count % EVAL_STEPS == 0 {
        (RunAction::Report, 0)
    } else {
        let progress = epoch_count % EVAL_STEPS;
        let filled = (progress * BAR_WIDTH) / EVAL_STEPS;
        if filled != last_filled {
            (RunAction::Redraw(progress), filled)
        } else {
            (RunAction::Keep, last_filled)
        }
    }
}

/// The primordial soup: its tapes, its generator, and how many epochs have
/// run.
pub struct Soup {
    tapes: Vec<[u8; TAPE_SIZE]>,
    rng: SmallRng,
    epoch_count: usize,
}

impl Soup {
    /// The soup's tapes.
    pub closed spec fn tapes_view(&self) -> Seq<[u8; TAPE_SIZE]> {
        self.tapes@
    }

    /// The soup's own generator, which shuffles the tapes.
    pub closed spec fn generator(&self) -> SmallRng {
        self.rng
    }

    /// How many epochs have run.
    pub closed spec fn epochs(&self) -> nat {
        self.epoch_count as nat
    }

    /// A soup of `size` tapes of random bytes, before any epoch.
    pub fn new(size: usize) -> (s: Self)
        ensures
            s.tapes_view().len() == size,
            s.epochs() == 0,
    {
        let mut rng = small_rng_from_entropy();
        let mut tapes: Vec<[u8; TAPE_SIZE]> = Vec::with_capacity(size);
        for i in 0..size
            invariant
                tapes@.len() == i,
        {
            let tape = random_tape(&mut rng);
            tapes.push(tape);
        }
        Soup { epoch_count: 0, rng, tapes }
    }

    /// A soup of the given tapes, before any epoch.
    pub fn from_tapes(tapes: Vec<[u8; TAPE_SIZE]>) -> (s: Self)
        ensures
            s.tapes_view() == tapes@,
            s.epochs() == 0,
    {
        Soup { epoch_count: 0, rng: small_rng_from_entropy(), tapes }
    }

    /// The soup's tapes.
    pub fn tapes(&self) -> (t: &Vec<[u8; TAPE_SIZE]>)
        ensures
            t@ == self.tapes_view(),
    {
        &self.tapes
    }

    /// How many epochs have run.
    pub fn epoch_count(&self) -> (n: usize)
        ensures
            n == self.epochs(),
    {
        self.epoch_count
    }

    /// Sets byte `b` of tape `t` to `v` for each write `(t, b, v)`, in order.
    pub fn apply_mutations(&mut self, writes: &[(usize, usize, u8)])
        requires
            writes_in_range(writes_view(writes@), old(self).tapes_view().len() as int),
        ensures
            final(self).tapes_view().len() == old(self).tapes_view().len(),
            final(self).epochs() == old(self).epochs(),
            final(self).generator() == old(self).generator(),
            tape_contents(final(self).tapes_view()) == apply_writes(
                tape_contents(old(self).tapes_view()),
                writes_view(writes@),
            ),
    {
        let ghost start = tape_contents(self.tapes@);
        let ghost w = writes_view(writes@);
        let len = self.tapes.len();
        let n = writes.len();
        assert(w.take(0) =~= Seq::<(int, int, u8)>::empty());
        for k in 0..n
            invariant
                n == writes@.len() == w.len(),
                w == writes_view(writes@),
                writes_in_range(w, len as int),
                self.tapes@.len() == len,
                self.epoch_count == old(self).epoch_count,
                self.rng == old(self).rng,
                tape_contents(self.tapes@) == apply_writes(start, w.take(k as int)),
        {
            let (tape_idx, byte_idx, value) = writes[k];
            assert(w[k as int] == (tape_idx as int, byte_idx as int, value));
            let mut tape = self.tapes[tape_idx];
            tape[byte_idx] = value;
            let ghost before = tape_contents(self.tapes@);
            self.tapes.set(tape_idx, tape);
            assert(w.take(k as int + 1).drop_last() =~= w.take(k as int));
            assert(tape_contents(self.tapes@) =~= before.update(
                tape_idx as int,
                before[tape_idx as int].update(byte_idx as int, value),
            ));
        }
        assert(w.take(n as int) =~= w);
    }

    /// Soup-wide background mutation: `mutation_count` random bytes of random
    /// tapes are set to random values, drawn from the thread's generator; the
    /// soup's own generator is left alone.
    pub fn mutate_soup(&mut self)
        requires
            old(self).tapes_view().len() * TAPE_SIZE <= usize::MAX,
        ensures
            final(self).tapes_view().len() == old(self).tapes_view().len(),
            final(self).epochs() == old(self).epochs(),
            final(self).generator() == old(self).generator(),
            exists|w: Seq<(int, int, u8)>|
                w.len() == mutation_count(old(self).tapes_view().len() * TAPE_SIZE)
                    && writes_in_range(w, old(self).tapes_view().len() as int) && tape_contents(
                    final(self).tapes_view(),
                ) == apply_writes(tape_contents(old(self).tapes_view()), w),
    {
        let len = self.tapes.len();
        let n = mutations_for(len * TAPE_SIZE);
        let mut rng = thread_generator();
        let mut writes: Vec<(usize, usize, u8)> = Vec::with_capacity(n);
        for k in 0..n
            invariant
                n <= len * TAPE_SIZE,
                writes@.len() == k,
                writes_in_range(writes_view(writes@), len as int),
        {
            let tape_idx = random_below(&mut rng, len);
            let byte_idx = random_below(&mut rng, TAPE_SIZE);
            let value = random_below(&mut rng, 256) as u8;
            let ghost before = writes@;
            writes.push((tape_idx, byte_idx, value));
            assert(writes_view(writes@) =~= writes_view(before).push(
                (tape_idx as int, byte_idx as int, value),
            ));
        }
        self.apply_mutations(writes.as_slice());
    }

    /// One epoch: the tapes are shuffled, then consecutive pairs interact (in
    /// parallel), then background mutation strikes.
    pub fn epoch(&mut self)
        requires
            old(self).tapes_view().len() % 2 == 0,
            old(self).tapes_view().len() * TAPE_SIZE <= usize::MAX,
        ensures
            final(self).tapes_view().len() == old(self).tapes_view().len(),
            final(self).epochs() == old(self).epochs(),
            is_epoch_outcome(old(self).tapes_view(), final(self).tapes_view()),
    {
        shuffle_tapes(&mut self.tapes, &mut self.rng);
        let ghost shuffled = self.tapes@;
        interact_pairs(&mut self.tapes);
        if MUTATION_RATE_NUM > 0 {
            self.mutate_soup();
        }
    }

    /// One step of a run: an epoch, the epoch counter advanced, and the
    /// decision of what to show (see `progress_decision`), given the fill of
    /// the progress bar last drawn. Returns the action and the fill drawn.
    pub fn advance(&mut self, last_filled: usize) -> (r: (RunAction, usize))
        requires
            old(self).tapes_view().len() % 2 == 0,
            old(self).tapes_view().len() * TAPE_SIZE <= usize::MAX,
            old(self).epochs() < usize::MAX,
        ensures
            final(self).tapes_view().len() == old(self).tapes_view().len(),
            is_epoch_outcome(old(self).tapes_view(), final(self).tapes_view()),
            final(self).epochs() == old(self).epochs() + 1,
            is_advance_step(*old(self), *final(self)),
            (r.0, r.1 as int) == progress_decision(final(self).epochs() as int, last_filled as int),
    {
        self.epoch();
        self.epoch_count = self.epoch_count + 1;
        progress_step(self.epoch_count, last_filled)
    }
}

/// Two tapes whose bytes hold none of the writing instructions leave an
/// interaction exactly as they entered it.
pub proof fn lemma_inert_pair_unchanged(a: Seq<u8>, b: Seq<u8>)
    requires
        a.len() == TAPE_SIZE,
        b.len() == TAPE_SIZE,
        forall|i: int| 0 <= i < a.len() ==> !is_write_op(#[trigger] a[i]),
        forall|i: int| 0 <= i < b.len() ==> !is_write_op(#[trigger] b[i]),
    ensures
        interact(a, b) == (a, b),
{
    let c = a + b;
    assert forall|i: int| 0 <= i < c.len() implies !is_write_op(#[trigger] c[i]) by {
        if i < TAPE_SIZE {
            assert(c[i] == a[i]);
        } else {
            assert(c[i] == b[i - TAPE_SIZE]);
        }
    }
    lemma_tape_without_writes_is_unchanged(c, MAX_STEPS as nat);
    assert(c.subrange(0, TAPE_SIZE as int) =~= a);
    assert(c.subrange(TAPE_SIZE as int, COMBINED_SIZE as int) =~= b);
}

/// `after` is what `Soup::advance` makes of `before`: one more epoch
/// counted, the same number of tapes, and the tapes an epoch's outcome.
pub open spec fn is_advance_step(before: Soup, after: Soup) -> bool {
    &&& after.epochs() == before.epochs() + 1
    &&& after.tapes_view().len() == before.tapes_view().len()
    &&& is_epoch_outcome(before.tapes_view(), after.tapes_view())
}

/// The soups of a run, one after each step of `Soup::advance`.
pub open spec fn is_run(trace: Seq<Soup>) -> bool {
    forall|i: int, j: int|
        0 <= i && j == i + 1 && j < trace.len() ==> is_advance_step(
            #[trigger] trace[i],
            #[trigger] trace[j],
        )
}

/// Over a whole run each epoch is run once and counted once: after `n`
/// steps the epoch count has grown by exactly `n` (by `EPOCHS` over the
/// program's run), and the soup still holds as many tapes.
pub proof fn lemma_run_counts_every_epoch(trace: Seq<Soup>)
    requires
        trace.len() > 0,
        is_run(trace),
    ensures
        trace.last().epochs() == trace[0].epochs() + (trace.len() - 1),
        trace.last().tapes_view().len() == trace[0].tapes_view().len(),
    decreases trace.len(),
{
    if trace.len() > 1 {
        let prefix = trace.drop_last();
        assert forall|i: int, j: int| 0 <= i && j == i + 1 && j < prefix.len() implies is_advance_step(
            #[trigger] prefix[i],
            #[trigger] prefix[j],
        ) by {
            assert(is_advance_step(trace[i], trace[j]));
        }
        lemma_run_counts_every_epoch(prefix);
        let n = trace.len() - 1;
        assert(is_advance_step(trace[n - 1], trace[n]));
    }
}

} // verus!
