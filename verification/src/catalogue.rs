//! The catalogue of replicator patterns found in the soup, grouped by family.

use vstd::prelude::*;
use vstd::slice::slice_to_vec;
use rayon::iter::{IntoParallelRefIterator, ParallelIterator};
use crate::constants::TAPE_SIZE;
use crate::order::{
    byte_strings, bytes_le, bytes_lt, lemma_bytes_lt_asymmetric, lemma_sorted_new_value,
    bytes_equal, ranked_keys, ranked_le, sort_byte_strings, sort_ranked, sorted_bytes,
};
use crate::stats::{
    code_bytes, compress_tape, find_replicator_loops, loops_view, replicator_loops, Family,
};

verus! {

broadcast use {vstd::seq_lib::group_to_multiset_ensures, vstd::multiset::group_multiset_axioms};

/// The replicator loops of a tape: those of its compressed form.
pub open spec fn tape_loops(t: Seq<u8>) -> Seq<(Family, Seq<u8>)> {
    replicator_loops(code_bytes(t))
}

/// The patterns of the loops of family `f`, in order.
pub open spec fn patterns_of(loops: Seq<(Family, Seq<u8>)>, f: Family) -> Seq<Seq<u8>>
    decreases loops.len(),
{
    if loops.len() == 0 {
        Seq::empty()
    } else if loops.last().0 == f {
        patterns_of(loops.drop_last(), f).push(loops.last().1)
    } else {
        patterns_of(loops.drop_last(), f)
    }
}

/// The patterns of all loops of family `f` in the soup, tape after tape.
pub open spec fn soup_patterns(tapes: Seq<[u8; TAPE_SIZE]>, f: Family) -> Seq<Seq<u8>>
    decreases tapes.len(),
{
    if tapes.len() == 0 {
        Seq::empty()
    } else {
        soup_patterns(tapes.drop_last(), f) + patterns_of(tape_loops(tapes.last()@), f)
    }
}

/// How many loops of family `f` with pattern `p` the soup holds.
pub open spec fn pattern_count(tapes: Seq<[u8; TAPE_SIZE]>, f: Family, p: Seq<u8>) -> nat {
    soup_patterns(tapes, f).to_multiset().count(p)
}

/// The patterns of the loops of family `f` in one tape, appended to `acc`.
pub fn append_tape_patterns(acc: Vec<Vec<u8>>, tape: &[u8; TAPE_SIZE], f: Family) -> (r: Vec<
    Vec<u8>,
>)
    ensures
        byte_strings(r@) == byte_strings(acc@) + patterns_of(tape_loops(tape@), f),
{
    let mut occ = acc;
    let compressed = compress_tape(tape);
    let loops = find_replicator_loops(compressed.as_slice());
    let ghost lv = loops_view(loops@);
    let ghost prefix = byte_strings(occ@);
    assert(lv == tape_loops(tape@));
    assert(lv.take(0) =~= Seq::<(Family, Seq<u8>)>::empty());
    assert(prefix + patterns_of(lv.take(0), f) =~= prefix);
    let m = loops.len();
    for k in 0..m
        invariant
            m == loops@.len() == lv.len(),
            lv == loops_view(loops@),
            byte_strings(occ@) == prefix + patterns_of(lv.take(k as int), f),
    {
        assert(lv.take(k as int + 1).drop_last() =~= lv.take(k as int));
        if loops[k].0 == f {
            let pattern = slice_to_vec(loops[k].1.as_slice());
            let ghost before = occ@;
            occ.push(pattern);
            assert(byte_strings(occ@) =~= byte_strings(before).push(pattern@));
        }
    }
    assert(lv.take(m as int) =~= lv);
    occ
}

/// Two pattern lists, one after the other.
pub fn concat_patterns(a: Vec<Vec<u8>>, b: Vec<Vec<u8>>) -> (r: Vec<Vec<u8>>)
    ensures
        byte_strings(r@) == byte_strings(a@) + byte_strings(b@),
{
    let mut r = a;
    let mut rest = b;
    let ghost a0 = r@;
    let ghost b0 = rest@;
    r.append(&mut rest);
    assert(byte_strings(r@) =~= byte_strings(a0) + byte_strings(b0));
    r
}

/// rayon's `par_iter`, `fold` and `reduce` over the tapes: each tape's
/// patterns of family `f` are appended, by `append_tape_patterns`, to one of
/// several lists, which `concat_patterns` then joins. Every tape is folded
/// exactly once, so the same patterns come out, each as often; the order in
/// which the lists are joined is not claimed.
#[verifier::external_body]
fn collect_patterns(tapes: &[[u8; TAPE_SIZE]], f: Family) -> (occ: Vec<Vec<u8>>)
    ensures
        byte_strings(occ@).to_multiset() == soup_patterns(tapes@, f).to_multiset(),
{
    tapes
        .par_iter()
        .fold(Vec::new, |acc, tape| append_tape_patterns(acc, tape, f))
        .reduce(Vec::new, concat_patterns)
}

/// The sum of the counts.
pub open spec fn counts_total(c: Seq<u64>) -> int
    decreases c.len(),
{
    if c.len() == 0 {
        0
    } else {
        counts_total(c.drop_last()) + c.last()
    }
}

/// The sum of the counts that ranking keys encode as `u64::MAX - count`.
pub open spec fn rank_weight_sum(s: Seq<(u64, Seq<u8>)>) -> int
    decreases s.len(),
{
    if s.len() == 0 {
        0
    } else {
        rank_weight_sum(s.drop_last()) + (u64::MAX - s.last().0)
    }
}

/// The sum of the counts of catalogue entries.
pub open spec fn entries_total(e: Seq<(Seq<u8>, u64)>) -> int
    decreases e.len(),
{
    if e.len() == 0 {
        0
    } else {
        entries_total(e.drop_last()) + e.last().1
    }
}

proof fn lemma_rank_weight_sum_remove(t: Seq<(u64, Seq<u8>)>, i: int)
    requires
        0 <= i < t.len(),
    ensures
        rank_weight_sum(t) == rank_weight_sum(t.remove(i)) + (u64::MAX - t[i].0),
    decreases t.len(),
{
    if i == t.len() - 1 {
        assert(t.remove(i) =~= t.drop_last());
    } else {
        lemma_rank_weight_sum_remove(t.drop_last(), i);
        assert(t.remove(i).drop_last() =~= t.drop_last().remove(i));
        assert(t.remove(i).last() == t.last());
    }
}

/// The sum does not depend on the order of the keys.
proof fn lemma_rank_weight_sum_permutation(s: Seq<(u64, Seq<u8>)>, t: Seq<(u64, Seq<u8>)>)
    requires
        s.to_multiset() == t.to_multiset(),
    ensures
        rank_weight_sum(s) == rank_weight_sum(t),
    decreases s.len(),
{
    if s.len() == 0 {
        assert(t.len() == t.to_multiset().len());
    } else {
        let x = s.last();
        assert(s.drop_last().push(x) =~= s);
        assert(s.to_multiset() =~= s.drop_last().to_multiset().insert(x));
        assert(t.to_multiset().count(x) > 0);
        assert(t.contains(x));
        let i = choose|i: int| 0 <= i < t.len() && t[i] == x;
        assert(t.remove(i).to_multiset() =~= t.to_multiset().remove(x));
        assert(s.drop_last().to_multiset() =~= s.to_multiset().remove(x));
        lemma_rank_weight_sum_permutation(s.drop_last(), t.remove(i));
        lemma_rank_weight_sum_remove(t, i);
    }
}

/// The runs of equal strings in a sorted list: each distinct string once, in
/// ascending order, beside how often it occurs.
fn count_runs(sorted: &Vec<Vec<u8>>) -> (r: (Vec<Vec<u8>>, Vec<u64>))
    requires
        sorted_bytes(byte_strings(sorted@)),
    ensures
        r.0@.len() == r.1@.len(),
        forall|k: int|
            0 <= k < r.1@.len() ==> #[trigger] r.1@[k] == byte_strings(sorted@).to_multiset().count(
                byte_strings(r.0@)[k],
            ) && r.1@[k] >= 1,
        forall|k: int, l: int|
            0 <= k < l < r.0@.len() ==> bytes_lt(
                #[trigger] byte_strings(r.0@)[k],
                #[trigger] byte_strings(r.0@)[l],
            ),
        forall|p: Seq<u8>|
            byte_strings(sorted@).to_multiset().count(p) > 0 ==> byte_strings(r.0@).contains(p),
        counts_total(r.1@) == sorted@.len(),
{
    let ghost s = byte_strings(sorted@);
    let mut pats: Vec<Vec<u8>> = Vec::new();
    let mut counts: Vec<u64> = Vec::new();
    let n = sorted.len();
    assert(s.take(0) =~= Seq::<Seq<u8>>::empty());
    for i in 0..n
        invariant
            n == s.len() == sorted@.len(),
            s == byte_strings(sorted@),
            sorted_bytes(s),
            pats@.len() == counts@.len(),
            forall|k: int|
                0 <= k < counts@.len() ==> #[trigger] counts@[k] == s.take(i as int).to_multiset().count(
                    byte_strings(pats@)[k],
                ) && counts@[k] >= 1 && counts@[k] <= i,
            forall|k: int, l: int|
                0 <= k < l < pats@.len() ==> bytes_lt(
                    #[trigger] byte_strings(pats@)[k],
                    #[trigger] byte_strings(pats@)[l],
                ),
            forall|p: Seq<u8>|
                s.take(i as int).to_multiset().count(p) > 0 ==> byte_strings(pats@).contains(p),
            i > 0 ==> pats@.len() > 0 && byte_strings(pats@).last() == s[i - 1],
            i == 0 ==> pats@.len() == 0,
            counts_total(counts@) == i,
    {
        let ghost x = s[i as int];
        let ghost before = s.take(i as int);
        let ghost old_pats = byte_strings(pats@);
        let ghost old_counts = counts@;
        assert(s.take(i as int + 1) =~= before.push(x));
        assert(s.take(i as int + 1).to_multiset() =~= before.to_multiset().insert(x));
        let same = i > 0 && bytes_equal(sorted[i].as_slice(), sorted[i - 1].as_slice());
        if same {
            let last = counts.len() - 1;
            let c = counts[last];
            counts.set(last, c + 1);
            assert(counts@.drop_last() =~= old_counts.drop_last());
            assert forall|k: int| 0 <= k < counts@.len() implies #[trigger] counts@[k]
                == s.take(i as int + 1).to_multiset().count(byte_strings(pats@)[k]) && counts@[k]
                >= 1 && counts@[k] <= i + 1 by {
                if k != last {
                    assert(bytes_lt(old_pats[k], old_pats[last as int]));
                    lemma_bytes_lt_asymmetric(old_pats[k], old_pats[k]);
                    assert(counts@[k] == old_counts[k]);
                }
            }
        } else {
            proof {
                if i > 0 {
                    lemma_sorted_new_value(s, i as int);
                }
                assert(!before.contains(x));
                assert(before.to_multiset().count(x) == 0);
                assert forall|k: int| 0 <= k < old_pats.len() implies bytes_lt(
                    #[trigger] old_pats[k],
                    x,
                ) by {
                    assert(old_counts[k] >= 1);
                    assert(before.to_multiset().count(old_pats[k]) > 0);
                    assert(before.contains(old_pats[k]));
                    let m = choose|m: int| 0 <= m < before.len() && before[m] == old_pats[k];
                    assert(bytes_le(s[m], s[i as int]));
                }
            }
            let pattern = slice_to_vec(sorted[i].as_slice());
            pats.push(pattern);
            counts.push(1);
            assert(counts@.drop_last() =~= old_counts);
            assert(byte_strings(pats@) =~= old_pats.push(x));
            assert forall|k: int| 0 <= k < counts@.len() implies #[trigger] counts@[k]
                == s.take(i as int + 1).to_multiset().count(byte_strings(pats@)[k]) && counts@[k]
                >= 1 && counts@[k] <= i + 1 by {
                if k < old_pats.len() {
                    assert(bytes_lt(old_pats[k], x));
                    lemma_bytes_lt_asymmetric(x, x);
                    assert(counts@[k] == old_counts[k]);
                }
            }
        }
        assert forall|p: Seq<u8>| s.take(i as int + 1).to_multiset().count(p) > 0 implies byte_strings(
            pats@,
        ).contains(p) by {
            if p == x {
                assert(byte_strings(pats@).last() == x);
            } else {
                assert(before.to_multiset().count(p) > 0);
                assert(old_pats.contains(p));
                let k = choose|k: int| 0 <= k < old_pats.len() && old_pats[k] == p;
                assert(byte_strings(pats@)[k] == p);
            }
        }
    }
    assert(s.take(n as int) =~= s);
    (pats, counts)
}

/// The catalogue entry of one replicator family.
pub struct FamilyBucket {
    /// Number of loops of the family in the soup.
    pub total: u64,
    /// Number of distinct patterns of the family.
    pub unique: usize,
    /// Each distinct pattern with its number of occurrences: descending
    /// count, ties in lexicographic order of the pattern.
    pub patterns: Vec<(Vec<u8>, u64)>,
}

/// Each pattern's bytes beside its count.
pub open spec fn bucket_entries(v: Seq<(Vec<u8>, u64)>) -> Seq<(Seq<u8>, u64)> {
    v.map_values(|e: (Vec<u8>, u64)| (e.0@, e.1))
}

/// What the bucket of family `f` holds for a soup: the number of loops, and
/// each distinct pattern exactly once with its count, by descending count
/// and then in lexicographic order.
pub open spec fn is_bucket_of(b: FamilyBucket, tapes: Seq<[u8; TAPE_SIZE]>, f: Family) -> bool {
    let e = bucket_entries(b.patterns@);
    &&& b.total == soup_patterns(tapes, f).len()
    &&& b.unique == e.len()
    &&& b.total == entries_total(e)
    &&& forall|k: int|
        0 <= k < e.len() ==> #[trigger] e[k].1 == pattern_count(tapes, f, e[k].0) && e[k].1 >= 1
    &&& forall|p: Seq<u8>| pattern_count(tapes, f, p) > 0 ==> exists|k: int|
        0 <= k < e.len() && #[trigger] e[k].0 == p
    &&& forall|i: int, j: int|
        0 <= i < j < e.len() ==> (#[trigger] e[i]).1 > (#[trigger] e[j]).1 || (e[i].1 == e[j].1
            && bytes_lt(e[i].0, e[j].0))
}

/// Counts each distinct pattern of family `f` in the soup and orders them:
/// descending count, ties by the lexicographic order of the pattern.
pub fn catalogue_family(tapes: &[[u8; TAPE_SIZE]], f: Family) -> (b: FamilyBucket)
    ensures
        is_bucket_of(b, tapes@, f),
{
    let mut occ = collect_patterns(tapes, f);
    let total = occ.len() as u64;
    let ghost soup = soup_patterns(tapes@, f);
    assert(byte_strings(occ@).len() == byte_strings(occ@).to_multiset().len());
    assert(soup.len() == soup.to_multiset().len());
    sort_byte_strings(&mut occ);
    let (pats, counts) = count_runs(&occ);
    let ghost pv = byte_strings(pats@);
    let ghost ranks = Seq::new(pats@.len(), |k: int| ((u64::MAX - counts@[k]) as u64, pv[k]));
    let mut keys: Vec<(u64, Vec<u8>)> = Vec::new();
    let m = pats.len();
    for k in 0..m
        invariant
            m == pats@.len() == counts@.len() == ranks.len(),
            pv == byte_strings(pats@),
            ranks == Seq::new(pats@.len(), |k: int| ((u64::MAX - counts@[k]) as u64, pv[k])),
            forall|k: int| 0 <= k < counts@.len() ==> #[trigger] counts@[k] >= 1,
            ranked_keys(keys@) == ranks.take(k as int),
            rank_weight_sum(ranks.take(k as int)) == counts_total(counts@.take(k as int)),
    {
        let key = (u64::MAX - counts[k], slice_to_vec(pats[k].as_slice()));
        let ghost before = keys@;
        keys.push(key);
        assert(ranked_keys(keys@) =~= ranked_keys(before).push(ranks[k as int]));
        assert(ranks.take(k as int + 1) =~= ranks.take(k as int).push(ranks[k as int]));
        assert(ranks.take(k as int + 1).drop_last() =~= ranks.take(k as int));
        assert(counts@.take(k as int + 1).drop_last() =~= counts@.take(k as int));
    }
    assert(ranks.take(m as int) =~= ranks);
    assert(counts@.take(m as int) =~= counts@);
    sort_ranked(&mut keys);
    let ghost sorted = ranked_keys(keys@);
    proof {
        assert forall|k: int, l: int|
            0 <= k < ranks.len() && 0 <= l < ranks.len() && k != l implies ranks[k] != ranks[l] by {
            if k < l {
                assert(bytes_lt(pv[k], pv[l]));
            } else {
                assert(bytes_lt(pv[l], pv[k]));
            }
            lemma_bytes_lt_asymmetric(pv[k], pv[k]);
        }
        assert(ranks.no_duplicates());
        ranks.lemma_multiset_has_no_duplicates();
        sorted.lemma_multiset_has_no_duplicates_conv();
        assert forall|i: int| 0 <= i < sorted.len() implies ranks.contains(#[trigger] sorted[i]) by {
            assert(sorted.contains(sorted[i]));
            assert(ranks.to_multiset().count(sorted[i]) > 0);
            assert(ranks.contains(sorted[i]));
        }
    }
    let mut out: Vec<(Vec<u8>, u64)> = Vec::new();
    let n = keys.len();
    for i in 0..n
        invariant
            n == keys@.len() == sorted.len(),
            sorted == ranked_keys(keys@),
            forall|i: int| 0 <= i < sorted.len() ==> ranks.contains(#[trigger] sorted[i]),
            ranks == Seq::new(pats@.len(), |k: int| ((u64::MAX - counts@[k]) as u64, pv[k])),
            forall|k: int| 0 <= k < counts@.len() ==> #[trigger] counts@[k] >= 1,
            bucket_entries(out@) == sorted.take(i as int).map_values(
                |r: (u64, Seq<u8>)| (r.1, (u64::MAX - r.0) as u64),
            ),
            entries_total(bucket_entries(out@)) == rank_weight_sum(sorted.take(i as int)),
    {
        assert(sorted[i as int] == (keys@[i as int].0, keys@[i as int].1@));
        let entry = (slice_to_vec(keys[i].1.as_slice()), u64::MAX - keys[i].0);
        let ghost before = out@;
        out.push(entry);
        assert(bucket_entries(out@) =~= bucket_entries(before).push((entry.0@, entry.1)));
        assert(sorted.take(i as int + 1) =~= sorted.take(i as int).push(sorted[i as int]));
        assert(sorted.take(i as int + 1).drop_last() =~= sorted.take(i as int));
        assert(bucket_entries(out@).drop_last() =~= bucket_entries(before));
    }
    let ghost e = bucket_entries(out@);
    proof {
        assert(sorted.take(n as int) =~= sorted);
        lemma_rank_weight_sum_permutation(sorted, ranks);
        assert(soup.to_multiset() == byte_strings(occ@).to_multiset());
        assert forall|k: int| 0 <= k < e.len() implies #[trigger] e[k].1 == pattern_count(
            tapes@,
            f,
            e[k].0,
        ) && e[k].1 >= 1 by {
            assert(ranks.contains(sorted[k]));
            let r = choose|r: int| 0 <= r < ranks.len() && ranks[r] == sorted[k];
            assert(counts@[r] >= 1);
        }
        assert forall|p: Seq<u8>| pattern_count(tapes@, f, p) > 0 implies exists|k: int|
            0 <= k < e.len() && #[trigger] e[k].0 == p by {
            assert(byte_strings(occ@).to_multiset().count(p) > 0);
            assert(pv.contains(p));
            let r = choose|r: int| 0 <= r < pv.len() && pv[r] == p;
            assert(ranks.contains(ranks[r]));
            assert(sorted.to_multiset().count(ranks[r]) > 0);
            assert(sorted.contains(ranks[r]));
            let i = choose|i: int| 0 <= i < sorted.len() && sorted[i] == ranks[r];
            assert(e[i].0 == p);
        }
        assert forall|i: int, j: int| 0 <= i < j < e.len() implies (#[trigger] e[i]).1 > (
        #[trigger] e[j]).1 || (e[i].1 == e[j].1 && bytes_lt(e[i].0, e[j].0)) by {
            assert(ranked_le(sorted[i], sorted[j]));
            assert(sorted[i] != sorted[j]);
            assert(ranks.contains(sorted[i]));
            assert(ranks.contains(sorted[j]));
            let ri = choose|r: int| 0 <= r < ranks.len() && ranks[r] == sorted[i];
            let rj = choose|r: int| 0 <= r < ranks.len() && ranks[r] == sorted[j];
        }
    }
    FamilyBucket { total, unique: out.len(), patterns: out }
}

/// The replicator catalogue of a soup: one bucket per family.
pub struct ReplicatorCatalogue {
    /// Family A: head 0 is the copy destination.
    pub a: FamilyBucket,
    /// Family B: head 1 is the copy destination.
    pub b: FamilyBucket,
    /// Family AB: copies in both directions.
    pub ab: FamilyBucket,
}

/// Walks the soup and counts each distinct replicator pattern, grouped by
/// family; in each bucket the patterns come by descending count, ties in
/// lexicographic order. A family without any loop has an empty bucket.
pub fn catalogue_replicators(tapes: &[[u8; TAPE_SIZE]]) -> (c: ReplicatorCatalogue)
    ensures
        is_catalogue_of(c, tapes@),
{
    let a = catalogue_family(tapes, Family::A);
    let b = catalogue_family(tapes, Family::B);
    let ab = catalogue_family(tapes, Family::AB);
    ReplicatorCatalogue { a, b, ab }
}

/// The three buckets of a catalogue are those of the soup `tapes`.
pub open spec fn is_catalogue_of(c: ReplicatorCatalogue, tapes: Seq<[u8; TAPE_SIZE]>) -> bool {
    &&& is_bucket_of(c.a, tapes, Family::A)
    &&& is_bucket_of(c.b, tapes, Family::B)
    &&& is_bucket_of(c.ab, tapes, Family::AB)
}

/// What a bucket holds: its total, its number of distinct patterns, and each
/// pattern's bytes beside its count.
pub open spec fn bucket_view(b: FamilyBucket) -> (u64, usize, Seq<(Seq<u8>, u64)>) {
    (b.total, b.unique, bucket_entries(b.patterns@))
}

impl ReplicatorCatalogue {
    /// Number of replicator loops over all families.
    pub fn total_replicators(&self) -> (n: u64)
        requires
            self.a.total + self.b.total + self.ab.total <= u64::MAX,
        ensures
            n == self.a.total + self.b.total + self.ab.total,
    {
        self.a.total + self.b.total + self.ab.total
    }

    /// Number of distinct replicator patterns over all families.
    pub fn unique_replicators(&self) -> (n: usize)
        requires
            self.a.unique + self.b.unique + self.ab.unique <= usize::MAX,
        ensures
            n == self.a.unique + self.b.unique + self.ab.unique,
    {
        self.a.unique + self.b.unique + self.ab.unique
    }
}

/// Entry `a` comes before entry `b`: a higher count, or the same count and a
/// lexicographically smaller pattern.
pub open spec fn rank_before(a: (Seq<u8>, u64), b: (Seq<u8>, u64)) -> bool {
    a.1 > b.1 || (a.1 == b.1 && bytes_lt(a.0, b.0))
}

/// Every entry comes before all the entries after it.
pub open spec fn strictly_ranked(e: Seq<(Seq<u8>, u64)>) -> bool {
    forall|i: int, j: int| 0 <= i < j < e.len() ==> rank_before(#[trigger] e[i], #[trigger] e[j])
}

proof fn lemma_rank_before_asymmetric(a: (Seq<u8>, u64), b: (Seq<u8>, u64))
    ensures
        !(rank_before(a, b) && rank_before(b, a)),
        !rank_before(a, a),
{
    lemma_bytes_lt_asymmetric(a.0, b.0);
    lemma_bytes_lt_asymmetric(a.0, a.0);
}

proof fn lemma_strictly_ranked_no_duplicates(e: Seq<(Seq<u8>, u64)>)
    requires
        strictly_ranked(e),
    ensures
        e.no_duplicates(),
{
    assert forall|i: int, j: int| 0 <= i < e.len() && 0 <= j < e.len() && i != j implies e[i]
        != e[j] by {
        if i < j {
            assert(rank_before(e[i], e[j]));
        } else {
            assert(rank_before(e[j], e[i]));
        }
        lemma_rank_before_asymmetric(e[i], e[i]);
    }
}

proof fn lemma_ranked_equal_at(e1: Seq<(Seq<u8>, u64)>, e2: Seq<(Seq<u8>, u64)>, i: int)
    requires
        strictly_ranked(e1),
        strictly_ranked(e2),
        e1.len() == e2.len(),
        forall|x: (Seq<u8>, u64)| e1.contains(x) <==> e2.contains(x),
        0 <= i < e1.len(),
        forall|m: int| 0 <= m < i ==> e1[m] == e2[m],
    ensures
        e1[i] == e2[i],
{
    lemma_strictly_ranked_no_duplicates(e1);
    lemma_strictly_ranked_no_duplicates(e2);
    assert(e1.contains(e1[i]));
    assert(e2.contains(e2[i]));
    let k = choose|k: int| 0 <= k < e2.len() && e2[k] == e1[i];
    let m = choose|m: int| 0 <= m < e1.len() && e1[m] == e2[i];
    if k < i {
        assert(e1[k] == e2[k]);
    } else if k > i {
        if m < i {
            assert(e1[m] == e2[m]);
        } else if m > i {
            assert(rank_before(e1[i], e1[m]));
            assert(rank_before(e2[i], e2[k]));
            lemma_rank_before_asymmetric(e2[i], e2[k]);
        }
    }
}

proof fn lemma_ranked_equal_upto(e1: Seq<(Seq<u8>, u64)>, e2: Seq<(Seq<u8>, u64)>, i: int)
    requires
        strictly_ranked(e1),
        strictly_ranked(e2),
        e1.len() == e2.len(),
        forall|x: (Seq<u8>, u64)| e1.contains(x) <==> e2.contains(x),
        0 <= i <= e1.len(),
    ensures
        forall|m: int| 0 <= m < i ==> e1[m] == e2[m],
    decreases i,
{
    if i > 0 {
        lemma_ranked_equal_upto(e1, e2, i - 1);
        lemma_ranked_equal_at(e1, e2, i - 1);
    }
}

/// Two strictly ranked lists of the same entries are the same list.
proof fn lemma_ranked_lists_equal(e1: Seq<(Seq<u8>, u64)>, e2: Seq<(Seq<u8>, u64)>)
    requires
        strictly_ranked(e1),
        strictly_ranked(e2),
        forall|x: (Seq<u8>, u64)| e1.contains(x) <==> e2.contains(x),
    ensures
        e1 == e2,
{
    lemma_strictly_ranked_no_duplicates(e1);
    lemma_strictly_ranked_no_duplicates(e2);
    assert(e1.to_set() =~= e2.to_set());
    e1.unique_seq_to_set();
    e2.unique_seq_to_set();
    lemma_ranked_equal_upto(e1, e2, e1.len() as int);
    assert(e1 =~= e2);
}

/// A bucket is determined by how often each pattern of its family occurs:
/// two soups with the same patterns, as often each, have the same bucket.
pub proof fn lemma_bucket_determined_by_patterns(
    b1: FamilyBucket,
    t1: Seq<[u8; TAPE_SIZE]>,
    b2: FamilyBucket,
    t2: Seq<[u8; TAPE_SIZE]>,
    f: Family,
)
    requires
        is_bucket_of(b1, t1, f),
        is_bucket_of(b2, t2, f),
        soup_patterns(t1, f).to_multiset() == soup_patterns(t2, f).to_multiset(),
    ensures
        bucket_view(b1) == bucket_view(b2),
{
    let e1 = bucket_entries(b1.patterns@);
    let e2 = bucket_entries(b2.patterns@);
    assert(soup_patterns(t1, f).len() == soup_patterns(t1, f).to_multiset().len());
    assert(soup_patterns(t2, f).len() == soup_patterns(t2, f).to_multiset().len());
    assert(strictly_ranked(e1));
    assert(strictly_ranked(e2));
    assert forall|x: (Seq<u8>, u64)| e1.contains(x) implies e2.contains(x) by {
        let i = choose|i: int| 0 <= i < e1.len() && e1[i] == x;
        assert(e1[i].1 == pattern_count(t1, f, e1[i].0) && e1[i].1 >= 1);
        assert(pattern_count(t2, f, x.0) > 0);
        let k = choose|k: int| 0 <= k < e2.len() && #[trigger] e2[k].0 == x.0;
        assert(e2[k].1 == pattern_count(t2, f, e2[k].0));
        assert(e2[k] == x);
    }
    assert forall|x: (Seq<u8>, u64)| e2.contains(x) implies e1.contains(x) by {
        let i = choose|i: int| 0 <= i < e2.len() && e2[i] == x;
        assert(e2[i].1 == pattern_count(t2, f, e2[i].0) && e2[i].1 >= 1);
        assert(pattern_count(t1, f, x.0) > 0);
        let k = choose|k: int| 0 <= k < e1.len() && #[trigger] e1[k].0 == x.0;
        assert(e1[k].1 == pattern_count(t1, f, e1[k].0));
        assert(e1[k] == x);
    }
    lemma_ranked_lists_equal(e1, e2);
}

/// The patterns of a soup joined from two are those of the first, then
/// those of the second.
pub proof fn lemma_soup_patterns_append(x: Seq<[u8; TAPE_SIZE]>, y: Seq<[u8; TAPE_SIZE]>, f: Family)
    ensures
        soup_patterns(x + y, f) == soup_patterns(x, f) + soup_patterns(y, f),
    decreases y.len(),
{
    if y.len() == 0 {
        assert(x + y =~= x);
        assert(soup_patterns(y, f) =~= Seq::<Seq<u8>>::empty());
        assert(soup_patterns(x, f) + soup_patterns(y, f) =~= soup_patterns(x, f));
    } else {
        lemma_soup_patterns_append(x, y.drop_last(), f);
        assert((x + y).drop_last() =~= x + y.drop_last());
        assert((x + y).last() == y.last());
        assert(soup_patterns(x + y, f) =~= soup_patterns(x, f) + soup_patterns(y, f));
    }
}

proof fn lemma_soup_patterns_remove(t: Seq<[u8; TAPE_SIZE]>, i: int, f: Family)
    requires
        0 <= i < t.len(),
    ensures
        soup_patterns(t, f).to_multiset() == soup_patterns(t.remove(i), f).to_multiset().add(
            patterns_of(tape_loops(t[i]@), f).to_multiset(),
        ),
{
    let a = t.take(i);
    let one = seq![t[i]];
    let c = t.skip(i + 1);
    assert(t =~= a + one + c);
    assert(t.remove(i) =~= a + c);
    lemma_soup_patterns_append(a + one, c, f);
    lemma_soup_patterns_append(a, one, f);
    lemma_soup_patterns_append(a, c, f);
    assert(one.drop_last() =~= Seq::<[u8; TAPE_SIZE]>::empty());
    assert(one.drop_last().len() == 0);
    assert(soup_patterns(one.drop_last(), f) =~= Seq::<Seq<u8>>::empty());
    assert(one.last() == t[i]);
    assert(Seq::<Seq<u8>>::empty() + patterns_of(tape_loops(t[i]@), f) =~= patterns_of(
        tape_loops(t[i]@),
        f,
    ));
    assert(soup_patterns(one, f) =~= patterns_of(tape_loops(t[i]@), f));
    let pa = soup_patterns(a, f);
    let pone = soup_patterns(one, f);
    let pc = soup_patterns(c, f);
    vstd::seq_lib::lemma_multiset_commutative(pa + pone, pc);
    vstd::seq_lib::lemma_multiset_commutative(pa, pone);
    vstd::seq_lib::lemma_multiset_commutative(pa, pc);
    assert(soup_patterns(t, f).to_multiset() =~= soup_patterns(t.remove(i), f).to_multiset().add(
        pone.to_multiset(),
    ));
}

/// Reordering the tapes does not change which patterns occur, nor how often.
pub proof fn lemma_soup_patterns_permutation(
    s: Seq<[u8; TAPE_SIZE]>,
    t: Seq<[u8; TAPE_SIZE]>,
    f: Family,
)
    requires
        s.to_multiset() == t.to_multiset(),
    ensures
        soup_patterns(s, f).to_multiset() == soup_patterns(t, f).to_multiset(),
    decreases s.len(),
{
    if s.len() == 0 {
        assert(t.len() == t.to_multiset().len());
        assert(soup_patterns(s, f) =~= soup_patterns(t, f));
    } else {
        let x = s.last();
        assert(s.drop_last().push(x) =~= s);
        assert(s.to_multiset() =~= s.drop_last().to_multiset().insert(x));
        assert(t.to_multiset().count(x) > 0);
        assert(t.contains(x));
        let i = choose|i: int| 0 <= i < t.len() && t[i] == x;
        assert(t.remove(i).to_multiset() =~= t.to_multiset().remove(x));
        assert(s.drop_last().to_multiset() =~= s.to_multiset().remove(x));
        lemma_soup_patterns_permutation(s.drop_last(), t.remove(i), f);
        lemma_soup_patterns_remove(t, i, f);
        vstd::seq_lib::lemma_multiset_commutative(
            soup_patterns(s.drop_last(), f),
            patterns_of(tape_loops(x@), f),
        );
        assert(soup_patterns(s, f).to_multiset() =~= soup_patterns(t, f).to_multiset());
    }
}

/// The catalogue does not depend on the order of the tapes: a soup and any
/// reordering of it have the same buckets, with the same totals, numbers of
/// distinct patterns and pattern lists in the same order.
pub proof fn lemma_catalogue_ignores_tape_order(
    c1: ReplicatorCatalogue,
    t1: Seq<[u8; TAPE_SIZE]>,
    c2: ReplicatorCatalogue,
    t2: Seq<[u8; TAPE_SIZE]>,
)
    requires
        t1.to_multiset() == t2.to_multiset(),
        is_catalogue_of(c1, t1),
        is_catalogue_of(c2, t2),
    ensures
        bucket_view(c1.a) == bucket_view(c2.a),
        bucket_view(c1.b) == bucket_view(c2.b),
        bucket_view(c1.ab) == bucket_view(c2.ab),
{
    lemma_soup_patterns_permutation(t1, t2, Family::A);
    lemma_soup_patterns_permutation(t1, t2, Family::B);
    lemma_soup_patterns_permutation(t1, t2, Family::AB);
    lemma_bucket_determined_by_patterns(c1.a, t1, c2.a, t2, Family::A);
    lemma_bucket_determined_by_patterns(c1.b, t1, c2.b, t2, Family::B);
    lemma_bucket_determined_by_patterns(c1.ab, t1, c2.ab, t2, Family::AB);
}

/// The count a bucket lists for pattern `p`, or 0 when `p` is not listed.
pub open spec fn listed_count(e: Seq<(Seq<u8>, u64)>, p: Seq<u8>) -> int {
    if exists|k: int| 0 <= k < e.len() && #[trigger] e[k].0 == p {
        e[choose|k: int| 0 <= k < e.len() && #[trigger] e[k].0 == p].1 as int
    } else {
        0
    }
}

/// A bucket lists, for every pattern, how often it occurs in the soup.
pub proof fn lemma_listed_count_is_pattern_count(
    b: FamilyBucket,
    t: Seq<[u8; TAPE_SIZE]>,
    f: Family,
    p: Seq<u8>,
)
    requires
        is_bucket_of(b, t, f),
    ensures
        listed_count(bucket_entries(b.patterns@), p) == pattern_count(t, f, p),
{
    let e = bucket_entries(b.patterns@);
    if exists|k: int| 0 <= k < e.len() && #[trigger] e[k].0 == p {
        let k = choose|k: int| 0 <= k < e.len() && #[trigger] e[k].0 == p;
        assert(e[k].1 == pattern_count(t, f, e[k].0));
    } else {
        if pattern_count(t, f, p) > 0 {
            let k = choose|k: int| 0 <= k < e.len() && #[trigger] e[k].0 == p;
        }
    }
}

/// The bucket of a soup joined from two: the totals add up, and so does the
/// count of every pattern (a pattern a bucket does not list counts 0).
pub proof fn lemma_bucket_of_joined_soups(
    b: FamilyBucket,
    bx: FamilyBucket,
    x: Seq<[u8; TAPE_SIZE]>,
    by: FamilyBucket,
    y: Seq<[u8; TAPE_SIZE]>,
    f: Family,
)
    requires
        is_bucket_of(bx, x, f),
        is_bucket_of(by, y, f),
        is_bucket_of(b, x + y, f),
    ensures
        b.total == bx.total + by.total,
        forall|p: Seq<u8>|
            #[trigger] listed_count(bucket_entries(b.patterns@), p) == listed_count(
                bucket_entries(bx.patterns@),
                p,
            ) + listed_count(bucket_entries(by.patterns@), p),
{
    lemma_soup_patterns_append(x, y, f);
    vstd::seq_lib::lemma_multiset_commutative(soup_patterns(x, f), soup_patterns(y, f));
    assert forall|p: Seq<u8>|
        #[trigger] listed_count(bucket_entries(b.patterns@), p) == listed_count(
            bucket_entries(bx.patterns@),
            p,
        ) + listed_count(bucket_entries(by.patterns@), p) by {
        lemma_listed_count_is_pattern_count(b, x + y, f, p);
        lemma_listed_count_is_pattern_count(bx, x, f, p);
        lemma_listed_count_is_pattern_count(by, y, f, p);
    }
}

/// The catalogue of a soup joined from two: in each family the totals add
/// up, and so does the count of every pattern.
pub proof fn lemma_catalogue_of_joined_soups(
    c: ReplicatorCatalogue,
    cx: ReplicatorCatalogue,
    x: Seq<[u8; TAPE_SIZE]>,
    cy: ReplicatorCatalogue,
    y: Seq<[u8; TAPE_SIZE]>,
)
    requires
        is_catalogue_of(cx, x),
        is_catalogue_of(cy, y),
        is_catalogue_of(c, x + y),
    ensures
        c.a.total == cx.a.total + cy.a.total,
        c.b.total == cx.b.total + cy.b.total,
        c.ab.total == cx.ab.total + cy.ab.total,
        forall|p: Seq<u8>|
            #[trigger] listed_count(bucket_entries(c.a.patterns@), p) == listed_count(
                bucket_entries(cx.a.patterns@),
                p,
            ) + listed_count(bucket_entries(cy.a.patterns@), p),
        forall|p: Seq<u8>|
            #[trigger] listed_count(bucket_entries(c.b.patterns@), p) == listed_count(
                bucket_entries(cx.b.patterns@),
                p,
            ) + listed_count(bucket_entries(cy.b.patterns@), p),
        forall|p: Seq<u8>|
            #[trigger] listed_count(bucket_entries(c.ab.patterns@), p) == listed_count(
                bucket_entries(cx.ab.patterns@),
                p,
            ) + listed_count(bucket_entries(cy.ab.patterns@), p),
{
    lemma_bucket_of_joined_soups(c.a, cx.a, x, cy.a, y, Family::A);
    lemma_bucket_of_joined_soups(c.b, cx.b, x, cy.b, y, Family::B);
    lemma_bucket_of_joined_soups(c.ab, cx.ab, x, cy.ab, y, Family::AB);
}

} // verus!
