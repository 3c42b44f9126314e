//! Lexicographic order on byte strings, std's sort, and counting distinct
//! values in a sorted list.

use vstd::prelude::*;

verus! {

broadcast use {vstd::set::group_set_axioms, vstd::seq_lib::group_seq_properties};

/// `a` and `b` agree before position `k` and part there with `a` first: `a`
/// ends at `k` while `b` goes on, or `a`'s byte at `k` is the smaller.
pub open spec fn parts_before(a: Seq<u8>, b: Seq<u8>, k: int) -> bool {
    &&& 0 <= k <= a.len()
    &&& k <= b.len()
    &&& forall|i: int| 0 <= i < k ==> a[i] == b[i]
    &&& (k == a.len() && k < b.len()) || (k < a.len() && k < b.len() && a[k] < b[k])
}

/// Lexicographic order on byte strings, a proper prefix first: the order of
/// `Vec<u8>` and, for ASCII, of `String`.
pub open spec fn bytes_lt(a: Seq<u8>, b: Seq<u8>) -> bool {
    exists|k: int| #[trigger] parts_before(a, b, k)
}

/// `a` equals `b` or comes before it.
pub open spec fn bytes_le(a: Seq<u8>, b: Seq<u8>) -> bool {
    a == b || bytes_lt(a, b)
}

/// A ranking key orders by its number first, then by its bytes.
pub open spec fn ranked_le(a: (u64, Seq<u8>), b: (u64, Seq<u8>)) -> bool {
    a.0 < b.0 || (a.0 == b.0 && bytes_le(a.1, b.1))
}

/// The contents of each byte string.
pub open spec fn byte_strings(v: Seq<Vec<u8>>) -> Seq<Seq<u8>> {
    v.map_values(|x: Vec<u8>| x@)
}

/// The number and contents of each ranking key.
pub open spec fn ranked_keys(v: Seq<(u64, Vec<u8>)>) -> Seq<(u64, Seq<u8>)> {
    v.map_values(|x: (u64, Vec<u8>)| (x.0, x.1@))
}

/// Each byte string comes at or after every one before it.
pub open spec fn sorted_bytes(s: Seq<Seq<u8>>) -> bool {
    forall|i: int, j: int| 0 <= i < j < s.len() ==> bytes_le(#[trigger] s[i], #[trigger] s[j])
}

/// No byte string comes strictly before itself, and of two different
/// strings at most one comes before the other.
pub proof fn lemma_bytes_lt_asymmetric(a: Seq<u8>, b: Seq<u8>)
    ensures
        !(bytes_lt(a, b) && bytes_lt(b, a)),
        !bytes_lt(a, a),
{
    if bytes_lt(a, b) && bytes_lt(b, a) {
        let k1 = choose|k: int| #[trigger] parts_before(a, b, k);
        let k2 = choose|k: int| #[trigger] parts_before(b, a, k);
        if k1 < k2 {
            assert(a[k1] == b[k1]);
        } else if k2 < k1 {
            assert(a[k2] == b[k2]);
        }
    }
    if bytes_lt(a, a) {
        let k = choose|k: int| #[trigger] parts_before(a, a, k);
    }
}

/// `slice::sort_unstable` on byte strings. std sorts ascending by `Ord`, and
/// `Vec<u8>` is ordered lexicographically: the result holds the same strings,
/// each as often, sorted by `bytes_le`.
#[verifier::external_body]
pub(crate) fn sort_byte_strings(v: &mut Vec<Vec<u8>>)
    ensures
        byte_strings(final(v)@).to_multiset() == byte_strings(old(v)@).to_multiset(),
        final(v)@.len() == old(v)@.len(),
        sorted_bytes(byte_strings(final(v)@)),
{
    v.sort_unstable();
}

/// `slice::sort_unstable` on ranking keys. Tuples are ordered by `Ord`
/// lexicographically, field by field: the result holds the same keys, each
/// as often, sorted by `ranked_le`.
#[verifier::external_body]
pub(crate) fn sort_ranked(v: &mut Vec<(u64, Vec<u8>)>)
    ensures
        ranked_keys(final(v)@).to_multiset() == ranked_keys(old(v)@).to_multiset(),
        final(v)@.len() == old(v)@.len(),
        forall|i: int, j: int|
            0 <= i < j < final(v)@.len() ==> ranked_le(
                #[trigger] ranked_keys(final(v)@)[i],
                #[trigger] ranked_keys(final(v)@)[j],
            ),
{
    v.sort_unstable();
}

/// Whether two byte strings are equal.
pub fn bytes_equal(a: &[u8], b: &[u8]) -> (r: bool)
    ensures
        r == (a@ == b@),
{
    if a.len() != b.len() {
        return false;
    }
    let n = a.len();
    for i in 0..n
        invariant
            n == a@.len() == b@.len(),
            forall|k: int| 0 <= k < i ==> a@[k] == b@[k],
    {
        if a[i] != b[i] {
            return false;
        }
    }
    assert(a@ =~= b@);
    true
}

/// In a sorted list, a string that differs from its predecessor occurs
/// nowhere before it.
pub proof fn lemma_sorted_new_value(s: Seq<Seq<u8>>, i: int)
    requires
        sorted_bytes(s),
        0 < i < s.len(),
        s[i] != s[i - 1],
    ensures
        !s.take(i).contains(s[i]),
{
    if s.take(i).contains(s[i]) {
        let m = choose|m: int| 0 <= m < i && s.take(i)[m] == s[i];
        assert(s[m] == s[i]);
        assert(bytes_le(s[m], s[i - 1]));
        assert(bytes_le(s[i - 1], s[i]));
        lemma_bytes_lt_asymmetric(s[i], s[i - 1]);
    }
}

/// Number of distinct byte strings in a sorted list.
pub fn count_distinct_sorted(v: &Vec<Vec<u8>>) -> (r: usize)
    requires
        sorted_bytes(byte_strings(v@)),
    ensures
        r == byte_strings(v@).to_set().len(),
{
    let ghost s = byte_strings(v@);
    let n = v.len();
    let mut count: usize = 0;
    assert(s.take(0).to_set() =~= Set::<Seq<u8>>::empty());
    for i in 0..n
        invariant
            n == v@.len() == s.len(),
            s == byte_strings(v@),
            sorted_bytes(s),
            s.take(i as int).to_set().finite(),
            count == s.take(i as int).to_set().len(),
            count <= i,
    {
        assert(s.take(i as int + 1).to_set() =~= s.take(i as int).to_set().insert(s[i as int]));
        let fresh = if i == 0 {
            true
        } else {
            !bytes_equal(v[i].as_slice(), v[i - 1].as_slice())
        };
        if fresh {
            proof {
                if i > 0 {
                    lemma_sorted_new_value(s, i as int);
                }
            }
            count += 1;
        } else {
            assert(s.take(i as int).contains(s[i as int])) by {
                assert(s.take(i as int)[i - 1] == s[i - 1]);
            }
        }
    }
    assert(s.take(n as int) =~= s);
    count
}

} // verus!
