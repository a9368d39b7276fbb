//! The SNP record and the pairwise spacing test.

use crate::text::texts;
use rayon::iter::{IntoParallelRefIterator, ParallelIterator};
use vstd::prelude::*;

verus! {

/// One variant site. Only `scaffold` and `pos` take part in the selection;
/// the other fields are carried through unchanged.
#[derive(Debug)]
pub struct Snp {
    pub scaffold: String,
    pub pos: i64,
    pub name: String,
    pub a_ref: u8,
    pub a_alt: u8,
    pub ps: Vec<String>,
}

/// What a record is, with machine types taken away.
pub struct SnpView {
    pub scaffold: Seq<char>,
    pub pos: int,
    pub name: Seq<char>,
    pub a_ref: u8,
    pub a_alt: u8,
    pub ps: Seq<Seq<char>>,
}

impl View for Snp {
    type V = SnpView;

    open spec fn view(&self) -> SnpView {
        SnpView {
            scaffold: self.scaffold@,
            pos: self.pos as int,
            name: self.name@,
            a_ref: self.a_ref,
            a_alt: self.a_alt,
            ps: texts(self.ps@),
        }
    }
}

/// The distance between two positions.
pub open spec fn distance(p: int, q: int) -> nat {
    if p >= q {
        (p - q) as nat
    } else {
        (q - p) as nat
    }
}

/// Two records conflict when they share a scaffold and lie closer than
/// `threshold`. A gap of exactly `threshold` is no conflict.
pub open spec fn conflicts(a: SnpView, b: SnpView, threshold: int) -> bool {
    a.scaffold == b.scaffold && distance(a.pos, b.pos) < threshold
}

/// Conflict does not depend on which of the two records is named first, and
/// at a positive threshold a record conflicts with itself.
pub proof fn lemma_conflicts_symmetric(a: SnpView, b: SnpView, threshold: int)
    ensures
        conflicts(a, b, threshold) == conflicts(b, a, threshold),
        conflicts(a, a, threshold) == (threshold > 0),
{
}

/// Do the two records conflict at this threshold?
pub fn incompatible(snp1: &Snp, snp2: &Snp, threshold: i64) -> (ko: bool)
    ensures
        ko == conflicts(snp1@, snp2@, threshold as int),
{
    if snp1.scaffold != snp2.scaffold {
        false
    } else if snp1.pos >= snp2.pos {
        (snp1.pos as i128) - (snp2.pos as i128) < threshold as i128
    } else {
        (snp2.pos as i128) - (snp1.pos as i128) < threshold as i128
    }
}

/// A candidate is blocked by a set of records when it conflicts with at
/// least one of them.
pub open spec fn blocked(candidate: SnpView, accepted: Seq<Snp>, threshold: int) -> bool {
    exists|i: int| 0 <= i < accepted.len() && conflicts(candidate, #[trigger] accepted[i]@, threshold)
}

/// Whether a candidate is blocked does not depend on the order in which
/// the accepted records stand, nor on the order in which they are scanned.
pub proof fn lemma_blocked_in_any_order(
    candidate: SnpView,
    accepted: Seq<Snp>,
    rearranged: Seq<Snp>,
    threshold: int,
)
    requires
        accepted.to_multiset() == rearranged.to_multiset(),
    ensures
        blocked(candidate, accepted, threshold) == blocked(candidate, rearranged, threshold),
{
    broadcast use vstd::seq_lib::group_to_multiset_ensures;

    if blocked(candidate, accepted, threshold) {
        let i = choose|i: int|
            0 <= i < accepted.len() && conflicts(candidate, #[trigger] accepted[i]@, threshold);
        assert(accepted.contains(accepted[i]));
        assert(accepted.to_multiset().count(accepted[i]) > 0);
        assert(rearranged.to_multiset().count(accepted[i]) > 0);
        assert(rearranged.contains(accepted[i]));
        let k = choose|k: int| 0 <= k < rearranged.len() && rearranged[k] == accepted[i];
        assert(conflicts(candidate, rearranged[k]@, threshold));
    }
    if blocked(candidate, rearranged, threshold) {
        let i = choose|i: int|
            0 <= i < rearranged.len() && conflicts(candidate, #[trigger] rearranged[i]@, threshold);
        assert(rearranged.contains(rearranged[i]));
        assert(rearranged.to_multiset().count(rearranged[i]) > 0);
        assert(accepted.to_multiset().count(rearranged[i]) > 0);
        assert(accepted.contains(rearranged[i]));
        let k = choose|k: int| 0 <= k < accepted.len() && accepted[k] == rearranged[i];
        assert(conflicts(candidate, accepted[k]@, threshold));
    }
}

/// Runs rayon's `ParallelIterator::any` over `current.par_iter()`, with
/// `incompatible` against `snp` as the predicate. Taken on trust: `any`
/// answers true exactly when the predicate holds of some item, whatever the
/// order in which the workers visit the items.
#[verifier::external_body]
fn par_any_incompatible(snp: &Snp, current: &[Snp], threshold: i64) -> (found: bool)
    ensures
        found == blocked(snp@, current@, threshold as int),
{
    current.par_iter().any(|other| incompatible(snp, other, threshold))
}

/// Is the candidate blocked by the records in `current`? The records are
/// scanned in parallel; the answer does not depend on the order of the scan.
pub fn is_ko(snp: &Snp, current: &[Snp], threshold: i64) -> (ko: bool)
    ensures
        ko == blocked(snp@, current@, threshold as int),
{
    par_any_incompatible(snp, current, threshold)
}

} // verus!
