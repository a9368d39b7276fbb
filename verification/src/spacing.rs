//! What it means for a set of records to be spaced, and why that does not
//! depend on the order in which the records stand.

use crate::record::{distance, Snp};
use vstd::prelude::*;

verus! {

/// No two records of the sequence that share a scaffold lie closer than
/// `threshold`.
pub open spec fn well_spaced(records: Seq<Snp>, threshold: int) -> bool {
    forall|i: int, j: int|
        0 <= i < records.len() && 0 <= j < records.len() && i != j && records[i]@.scaffold
            == records[j]@.scaffold ==> distance(records[i]@.pos, records[j]@.pos) >= threshold
}

/// A record that stands at two places of a sequence is counted twice at
/// least.
pub proof fn lemma_twice_in_seq_counts_twice(s: Seq<Snp>, i: int, j: int)
    requires
        0 <= i < s.len(),
        0 <= j < s.len(),
        i != j,
        s[i] == s[j],
    ensures
        s.to_multiset().count(s[i]) >= 2,
{
    broadcast use vstd::seq_lib::group_to_multiset_ensures;

    let without = s.remove(i);
    let k = if j < i {
        j
    } else {
        j - 1
    };
    assert(without[k] == s[j]);
    assert(without.contains(s[i]));
    assert(without.to_multiset().count(s[i]) > 0);
}

/// A record that is counted twice stands at two places of the sequence.
pub proof fn lemma_counted_twice_stands_twice(s: Seq<Snp>, x: Snp) -> (places: (int, int))
    requires
        s.to_multiset().count(x) >= 2,
    ensures
        0 <= places.0 < s.len(),
        0 <= places.1 < s.len(),
        places.0 != places.1,
        s[places.0] == x,
        s[places.1] == x,
{
    broadcast use vstd::seq_lib::group_to_multiset_ensures;

    assert(s.contains(x));
    let p = choose|p: int| 0 <= p < s.len() && s[p] == x;
    let without = s.remove(p);
    assert(without.to_multiset().count(x) > 0);
    assert(without.contains(x));
    let k = choose|k: int| 0 <= k < without.len() && without[k] == x;
    let q = if k < p {
        k
    } else {
        k + 1
    };
    (p, q)
}

/// Spacing is a matter of which records there are, not of their order: a
/// rearrangement of a well spaced sequence is well spaced.
pub proof fn lemma_spacing_of_rearranged(a: Seq<Snp>, b: Seq<Snp>, threshold: int)
    requires
        a.to_multiset() == b.to_multiset(),
        well_spaced(a, threshold),
    ensures
        well_spaced(b, threshold),
{
    broadcast use vstd::seq_lib::group_to_multiset_ensures;

    assert forall|i: int, j: int|
        0 <= i < b.len() && 0 <= j < b.len() && i != j && b[i]@.scaffold
            == b[j]@.scaffold implies distance(b[i]@.pos, b[j]@.pos) >= threshold by {
        if b[i] == b[j] {
            lemma_twice_in_seq_counts_twice(b, i, j);
            let (p, q) = lemma_counted_twice_stands_twice(a, b[i]);
            assert(distance(a[p]@.pos, a[q]@.pos) >= threshold);
        } else {
            assert(b.contains(b[i]));
            assert(b.contains(b[j]));
            assert(b.to_multiset().count(b[i]) > 0);
            assert(b.to_multiset().count(b[j]) > 0);
            assert(a.to_multiset().count(b[i]) > 0);
            assert(a.to_multiset().count(b[j]) > 0);
            assert(a.contains(b[i]));
            assert(a.contains(b[j]));
            let p = choose|p: int| 0 <= p < a.len() && a[p] == b[i];
            let q = choose|q: int| 0 <= q < a.len() && a[q] == b[j];
            assert(distance(a[p]@.pos, a[q]@.pos) >= threshold);
        }
    }
}

} // verus!
