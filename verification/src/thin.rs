//! The whole of the thinning: quota, sample, and the order of the output.

use crate::output_order::{is_ordering_of, ordered, sort_for_output};
use crate::quota::{quota, quota_of, Proportion};
use crate::record::Snp;
use crate::sampler::{sample, sample_seeded};
use crate::selection::{lemma_sample_with_room, sample_of};
use crate::spacing::{lemma_spacing_of_rearranged, well_spaced};
use vstd::prelude::*;

verus! {

/// What thinning a pool gives.
#[derive(Debug)]
pub struct Thinned {
    /// The selected records, in the order in which they are written.
    pub records: Vec<Snp>,
    /// The quota that was aimed at.
    pub todo: u128,
    /// Fewer records than the quota were found. This is no failure: the
    /// pool was too dense for more.
    pub shortfall: bool,
}

/// `records` is a sample of the pool for the quota `todo`, put in order.
pub open spec fn thinning_of(records: Seq<Snp>, pool: Seq<Snp>, threshold: int, todo: int) -> bool {
    exists|accepted: Seq<Snp>|
        sample_of(accepted, pool, threshold, todo) && #[trigger] is_ordering_of(records, accepted)
}

/// What holds of the outcome of thinning `pool`.
pub open spec fn thinned_from(out: Thinned, pool: Seq<Snp>, threshold: int, share: Proportion) -> bool {
    let todo = quota_of(pool.len(), share);
    &&& thinning_of(out.records@, pool, threshold, todo)
    &&& well_spaced(out.records@, threshold)
    &&& ordered(out.records@)
    &&& out.records@.to_multiset().subset_of(pool.to_multiset())
    &&& out.records@.len() <= pool.len()
    &&& out.todo == todo
    &&& out.shortfall == (out.records@.len() < todo)
}

/// Thins a pool whose records stand in the order in which they are to be
/// considered.
fn thin_with(pool: Vec<Snp>, threshold: i64, share: Proportion, seed: Option<u64>) -> (out: Thinned)
    requires
        share.wf(),
    ensures
        thinned_from(out, pool@, threshold as int, share),
{
    let ghost whole = pool@;
    let todo = quota(pool.len(), share);
    let stop_beyond: usize = if todo <= usize::MAX as u128 {
        todo as usize
    } else {
        usize::MAX
    };
    let accepted = match seed {
        Some(seed) => sample_seeded(pool, threshold, stop_beyond, seed),
        None => sample(pool, threshold, stop_beyond),
    };
    let ghost sampled = accepted@;
    let shortfall = (accepted.len() as u128) < todo;
    let records = sort_for_output(accepted);
    proof {
        if todo > usize::MAX {
            lemma_sample_with_room(
                sampled,
                whole,
                threshold as int,
                stop_beyond as int,
                todo as int,
            );
        }
        lemma_spacing_of_rearranged(sampled, records@, threshold as int);
        vstd::seq_lib::to_multiset_len(sampled);
        vstd::seq_lib::to_multiset_len(records@);
        assert(is_ordering_of(records@, sampled));
    }
    Thinned { records, todo, shortfall }
}

/// Thins a pool: from the records in random order, as many as the
/// proportion asks for are selected, none closer than `threshold` to
/// another of its scaffold, and put in the order of the output.
pub fn thin(pool: Vec<Snp>, threshold: i64, share: Proportion) -> (out: Thinned)
    requires
        share.wf(),
    ensures
        thinned_from(out, pool@, threshold as int, share),
{
    thin_with(pool, threshold, share, None)
}

/// As `thin`, with the random order driven by `seed`.
pub fn thin_seeded(pool: Vec<Snp>, threshold: i64, share: Proportion, seed: u64) -> (out: Thinned)
    requires
        share.wf(),
    ensures
        thinned_from(out, pool@, threshold as int, share),
{
    thin_with(pool, threshold, share, Some(seed))
}

} // verus!
