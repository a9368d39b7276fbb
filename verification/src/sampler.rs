//! The greedy spacing selection: candidates are taken from the end of the
//! pool, one by one, and kept when nothing kept so far blocks them.

use crate::record::{is_ko, Snp};
use crate::selection::{greedy, lemma_greedy_spaced, lemma_selection_is_sample, run, sample_of};
use crate::spacing::well_spaced;
use rand::rngs::StdRng;
use rand::seq::SliceRandom;
use rand::{thread_rng, SeedableRng};
use vstd::prelude::*;

verus! {

/// Selects from `pool`, in the order in which it stands, records that keep
/// `threshold` between them. An empty pool gives an empty selection.
pub fn select(pool: Vec<Snp>, threshold: i64, todo: usize) -> (accepted: Vec<Snp>)
    ensures
        accepted@ == greedy(pool@, threshold as int, todo as int),
        well_spaced(accepted@, threshold as int),
{
    let ghost whole = pool@;
    proof {
        lemma_greedy_spaced(whole, threshold as int, todo as int);
    }
    let mut pool = pool;
    let mut accepted: Vec<Snp> = Vec::new();
    match pool.pop() {
        None => {
            return accepted;
        },
        Some(seed) => {
            accepted.push(seed);
        },
    }
    assert(accepted@ == seq![whole.last()]);
    loop
        invariant_except_break
            run(pool@, accepted@, threshold as int, todo as int) == greedy(
                whole,
                threshold as int,
                todo as int,
            ),
        ensures
            accepted@ == greedy(whole, threshold as int, todo as int),
        decreases pool.len(),
    {
        match pool.pop() {
            None => {
                break ;
            },
            Some(candidate) => {
                if !is_ko(&candidate, accepted.as_slice(), threshold) {
                    accepted.push(candidate);
                }
                if accepted.len() > todo {
                    break ;
                }
            },
        }
    }
    accepted
}

/// Calls `SliceRandom::shuffle` of rand on the records, with the generator
/// that `thread_rng()` hands to the calling thread. Taken on trust: the
/// shuffle only swaps records, so afterwards the vector holds the same
/// records, each as often as before. Nothing is said of their order.
#[verifier::external_body]
fn shuffle(pool: &mut Vec<Snp>)
    ensures
        final(pool)@.to_multiset() == old(pool)@.to_multiset(),
{
    pool.shuffle(&mut thread_rng());
}

/// Calls `SliceRandom::shuffle` of rand on the records, with a `StdRng` made
/// by `SeedableRng::seed_from_u64`. Taken on trust: afterwards the vector
/// holds the same records, each as often as before. Which order a seed gives
/// is left open: it may differ between machines and versions of rand.
#[verifier::external_body]
fn shuffle_seeded(pool: &mut Vec<Snp>, seed: u64)
    ensures
        final(pool)@.to_multiset() == old(pool)@.to_multiset(),
{
    pool.shuffle(&mut StdRng::seed_from_u64(seed));
}

/// Shuffles the pool and selects from it. The order differs from call to
/// call; the result is a sample of the pool in every case.
pub fn sample(pool: Vec<Snp>, threshold: i64, todo: usize) -> (accepted: Vec<Snp>)
    ensures
        sample_of(accepted@, pool@, threshold as int, todo as int),
{
    let ghost whole = pool@;
    let mut pool = pool;
    shuffle(&mut pool);
    proof {
        lemma_selection_is_sample(pool@, whole, threshold as int, todo as int);
    }
    select(pool, threshold, todo)
}

/// As `sample`, with the shuffle driven by `seed`, so that a run can be
/// repeated.
pub fn sample_seeded(pool: Vec<Snp>, threshold: i64, todo: usize, seed: u64) -> (accepted: Vec<Snp>)
    ensures
        sample_of(accepted@, pool@, threshold as int, todo as int),
{
    let ghost whole = pool@;
    let mut pool = pool;
    shuffle_seeded(&mut pool, seed);
    proof {
        lemma_selection_is_sample(pool@, whole, threshold as int, todo as int);
    }
    select(pool, threshold, todo)
}

} // verus!
