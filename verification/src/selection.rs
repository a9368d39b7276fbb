//! What the greedy selection is, and what holds of it whatever the order
//! of the pool.

use crate::record::{blocked, conflicts, distance, Snp};
use crate::spacing::{lemma_spacing_of_rearranged, well_spaced};
use vstd::prelude::*;

verus! {

/// The accepted set after one candidate has been looked at.
pub open spec fn consider(accepted: Seq<Snp>, candidate: Snp, threshold: int) -> Seq<Snp> {
    if blocked(candidate@, accepted, threshold) {
        accepted
    } else {
        accepted.push(candidate)
    }
}

/// The accepted set once the candidates of `pool` have been looked at from
/// the last to the first, stopping early as soon as more than `todo` records
/// are accepted.
pub open spec fn run(pool: Seq<Snp>, accepted: Seq<Snp>, threshold: int, todo: int) -> Seq<Snp>
    decreases pool.len(),
{
    if pool.len() == 0 {
        accepted
    } else {
        let next = consider(accepted, pool.last(), threshold);
        if next.len() > todo {
            next
        } else {
            run(pool.drop_last(), next, threshold, todo)
        }
    }
}

/// The selection made from a pool in a given order: the last record seeds
/// the accepted set, the others are candidates.
pub open spec fn greedy(pool: Seq<Snp>, threshold: int, todo: int) -> Seq<Snp> {
    if pool.len() == 0 {
        Seq::empty()
    } else {
        run(pool.drop_last(), seq![pool.last()], threshold, todo)
    }
}

/// Looking at one more candidate keeps a well spaced set well spaced.
pub proof fn lemma_consider_spaced(accepted: Seq<Snp>, candidate: Snp, threshold: int)
    requires
        well_spaced(accepted, threshold),
    ensures
        well_spaced(consider(accepted, candidate, threshold), threshold),
{
    let next = consider(accepted, candidate, threshold);
    if !blocked(candidate@, accepted, threshold) {
        assert forall|i: int, j: int|
            0 <= i < next.len() && 0 <= j < next.len() && i != j && next[i]@.scaffold
                == next[j]@.scaffold implies distance(next[i]@.pos, next[j]@.pos)
            >= threshold by {
            if i == accepted.len() {
                assert(!conflicts(candidate@, accepted[j]@, threshold));
            } else if j == accepted.len() {
                assert(!conflicts(candidate@, accepted[i]@, threshold));
            }
        }
    }
}

/// A run that starts from a well spaced set ends with one.
pub proof fn lemma_run_spaced(pool: Seq<Snp>, accepted: Seq<Snp>, threshold: int, todo: int)
    requires
        well_spaced(accepted, threshold),
    ensures
        well_spaced(run(pool, accepted, threshold, todo), threshold),
    decreases pool.len(),
{
    if pool.len() > 0 {
        let next = consider(accepted, pool.last(), threshold);
        lemma_consider_spaced(accepted, pool.last(), threshold);
        if next.len() <= todo {
            lemma_run_spaced(pool.drop_last(), next, threshold, todo);
        }
    }
}

/// The spacing invariant: whatever the order of the pool and whatever the
/// quota, two selected records of one scaffold are at least `threshold`
/// apart.
pub proof fn lemma_greedy_spaced(pool: Seq<Snp>, threshold: int, todo: int)
    ensures
        well_spaced(greedy(pool, threshold, todo), threshold),
{
    if pool.len() > 0 {
        lemma_run_spaced(pool.drop_last(), seq![pool.last()], threshold, todo);
    }
}

/// Records of other scaffolds never block a candidate, wherever they lie
/// and whatever the threshold: the candidate is taken.
pub proof fn lemma_other_scaffolds_never_block(accepted: Seq<Snp>, candidate: Snp, threshold: int)
    requires
        forall|i: int| 0 <= i < accepted.len() ==> accepted[i]@.scaffold != candidate@.scaffold,
    ensures
        !blocked(candidate@, accepted, threshold),
        consider(accepted, candidate, threshold) == accepted.push(candidate),
{
}

/// The records of a sequence that lie on one scaffold, in their order.
pub open spec fn on_scaffold(records: Seq<Snp>, scaffold: Seq<char>) -> Seq<Snp> {
    records.filter(|r: Snp| r@.scaffold == scaffold)
}

/// Whether a candidate is blocked depends on the accepted records of its
/// own scaffold alone.
pub proof fn lemma_blocked_on_own_scaffold(accepted: Seq<Snp>, candidate: Snp, threshold: int)
    ensures
        blocked(candidate@, accepted, threshold) == blocked(
            candidate@,
            on_scaffold(accepted, candidate@.scaffold),
            threshold,
        ),
{
    let same = |r: Snp| r@.scaffold == candidate@.scaffold;
    let own = on_scaffold(accepted, candidate@.scaffold);
    if blocked(candidate@, accepted, threshold) {
        let i = choose|i: int|
            0 <= i < accepted.len() && conflicts(candidate@, #[trigger] accepted[i]@, threshold);
        assert(same(accepted[i]));
        accepted.lemma_filter_contains(same, i);
        let k = choose|k: int| 0 <= k < own.len() && own[k] == accepted[i];
        assert(conflicts(candidate@, own[k]@, threshold));
    }
    if blocked(candidate@, own, threshold) {
        let k = choose|k: int|
            0 <= k < own.len() && conflicts(candidate@, #[trigger] own[k]@, threshold);
        assert(own.contains(own[k]));
        accepted.lemma_filter_contains_rev(same, own[k]);
        let i = choose|i: int| 0 <= i < accepted.len() && accepted[i] == own[k];
        assert(conflicts(candidate@, accepted[i]@, threshold));
    }
}

/// With room for the whole pool in the quota, what a run accepts on one
/// scaffold is what a run on the records of that scaffold alone accepts.
pub proof fn lemma_run_by_scaffold(
    pool: Seq<Snp>,
    accepted: Seq<Snp>,
    threshold: int,
    todo: int,
    scaffold: Seq<char>,
)
    requires
        todo >= accepted.len() + pool.len(),
    ensures
        on_scaffold(run(pool, accepted, threshold, todo), scaffold) == run(
            on_scaffold(pool, scaffold),
            on_scaffold(accepted, scaffold),
            threshold,
            todo,
        ),
    decreases pool.len(),
{
    let here = |r: Snp| r@.scaffold == scaffold;
    pool.lemma_filter_len(here);
    accepted.lemma_filter_len(here);
    if pool.len() == 0 {
        assert(on_scaffold(pool, scaffold).len() == 0);
    } else {
        let candidate = pool.last();
        let rest = pool.drop_last();
        let next = consider(accepted, candidate, threshold);
        assert(pool =~= rest.push(candidate));
        rest.lemma_filter_push(candidate, here);
        accepted.lemma_filter_push(candidate, here);
        rest.lemma_filter_len(here);
        lemma_run_by_scaffold(rest, next, threshold, todo, scaffold);
        if candidate@.scaffold == scaffold {
            lemma_blocked_on_own_scaffold(accepted, candidate, threshold);
            let own = on_scaffold(pool, scaffold);
            assert(own.last() == candidate);
            assert(own.drop_last() =~= on_scaffold(rest, scaffold));
            assert(on_scaffold(next, scaffold) == consider(
                on_scaffold(accepted, scaffold),
                candidate,
                threshold,
            ));
        } else {
            assert(on_scaffold(next, scaffold) == on_scaffold(accepted, scaffold));
        }
    }
}

/// Scaffolds do not bear on each other: with room for the whole pool in the
/// quota, the selected records of one scaffold are the selection from the
/// records of that scaffold alone, whatever stands on the other scaffolds.
pub proof fn lemma_greedy_by_scaffold(pool: Seq<Snp>, threshold: int, todo: int, scaffold: Seq<char>)
    requires
        todo >= pool.len(),
        todo >= 1,
    ensures
        on_scaffold(greedy(pool, threshold, todo), scaffold) == greedy(
            on_scaffold(pool, scaffold),
            threshold,
            todo,
        ),
{
    let here = |r: Snp| r@.scaffold == scaffold;
    if pool.len() == 0 {
        assert(on_scaffold(Seq::<Snp>::empty(), scaffold).len() == 0) by {
            Seq::<Snp>::empty().lemma_filter_len(here);
        }
        assert(pool =~= Seq::<Snp>::empty());
        assert(on_scaffold(greedy(pool, threshold, todo), scaffold) =~= Seq::<Snp>::empty());
    } else {
        let seed = pool.last();
        let rest = pool.drop_last();
        let own = on_scaffold(rest, scaffold);
        assert(pool =~= rest.push(seed));
        rest.lemma_filter_push(seed, here);
        rest.lemma_filter_len(here);
        Seq::<Snp>::empty().lemma_filter_push(seed, here);
        Seq::<Snp>::empty().lemma_filter_len(here);
        assert(seq![seed] =~= Seq::<Snp>::empty().push(seed));
        lemma_run_by_scaffold(rest, seq![seed], threshold, todo, scaffold);
        if seed@.scaffold == scaffold {
            assert(on_scaffold(seq![seed], scaffold) =~= seq![seed]);
            assert(on_scaffold(pool, scaffold).drop_last() =~= own);
        } else {
            assert(on_scaffold(seq![seed], scaffold) =~= Seq::<Snp>::empty());
            if own.len() > 0 {
                assert(!blocked(own.last()@, Seq::<Snp>::empty(), threshold));
                assert(consider(Seq::<Snp>::empty(), own.last(), threshold) =~= seq![own.last()]);
            }
        }
    }
}

/// The threshold is the smallest gap that is allowed. Of two records of one
/// scaffold, the later in the pool is always kept; the earlier is kept too
/// when the gap is `threshold` or more, and dropped when it is less, so at
/// `threshold - 1`.
pub proof fn lemma_pair_at_boundary(a: Snp, b: Snp, threshold: int, todo: int)
    requires
        a@.scaffold == b@.scaffold,
    ensures
        distance(a@.pos, b@.pos) == threshold ==> !conflicts(a@, b@, threshold),
        distance(a@.pos, b@.pos) == threshold - 1 ==> conflicts(a@, b@, threshold),
        distance(a@.pos, b@.pos) >= threshold ==> greedy(seq![a, b], threshold, todo) == seq![b, a],
        distance(a@.pos, b@.pos) < threshold ==> greedy(seq![a, b], threshold, todo) == seq![b],
{
    let pool = seq![a, b];
    let rest = pool.drop_last();
    let seed = seq![b];
    assert(rest =~= seq![a]);
    assert(rest.drop_last() =~= Seq::<Snp>::empty());
    assert(seed[0] == b);
    let next = consider(seed, a, threshold);
    if distance(a@.pos, b@.pos) >= threshold {
        assert(!blocked(a@, seed, threshold));
        assert(next =~= seq![b, a]);
    } else {
        assert(conflicts(a@, seed[0]@, threshold));
        assert(next == seed);
    }
    assert(run(rest, seed, threshold, todo) == if next.len() > todo {
        next
    } else {
        run(rest.drop_last(), next, threshold, todo)
    });
    assert(run(rest.drop_last(), next, threshold, todo) == next);
}

/// On a stretch of candidates none of which conflicts with anything before
/// it, and with room in the quota, a run keeps every candidate.
pub proof fn lemma_run_keeps_sparse(pool: Seq<Snp>, accepted: Seq<Snp>, threshold: int, todo: int)
    requires
        well_spaced(accepted + pool.reverse(), threshold),
        accepted.len() + pool.len() <= todo,
    ensures
        run(pool, accepted, threshold, todo) == accepted + pool.reverse(),
    decreases pool.len(),
{
    let all = accepted + pool.reverse();
    if pool.len() == 0 {
        assert(all =~= accepted);
    } else {
        let candidate = pool.last();
        assert(all[accepted.len() as int] == candidate);
        assert forall|i: int| 0 <= i < accepted.len() implies !conflicts(
            candidate@,
            #[trigger] accepted[i]@,
            threshold,
        ) by {
            assert(all[i] == accepted[i]);
        }
        let next = accepted.push(candidate);
        assert(consider(accepted, candidate, threshold) == next);
        assert(next + pool.drop_last().reverse() =~= all);
        lemma_run_keeps_sparse(pool.drop_last(), next, threshold, todo);
    }
}

/// A sparse pool is kept whole: where no two records of the pool conflict
/// and the quota is at least the size of the pool, every record is selected.
pub proof fn lemma_sparse_pool_kept(pool: Seq<Snp>, threshold: int, todo: int)
    requires
        well_spaced(pool, threshold),
        todo >= pool.len(),
    ensures
        greedy(pool, threshold, todo) == pool.reverse(),
        greedy(pool, threshold, todo).to_multiset() == pool.to_multiset(),
{
    pool.lemma_reverse_to_multiset();
    if pool.len() == 0 {
        assert(pool.reverse() =~= Seq::<Snp>::empty());
    } else {
        let seed = seq![pool.last()];
        let rest = pool.drop_last();
        assert(seed + rest.reverse() =~= pool.reverse());
        assert forall|i: int, j: int|
            0 <= i < pool.len() && 0 <= j < pool.len() && i != j && pool.reverse()[i]@.scaffold
                == pool.reverse()[j]@.scaffold implies distance(
            pool.reverse()[i]@.pos,
            pool.reverse()[j]@.pos,
        ) >= threshold by {
            assert(pool.reverse()[i] == pool[pool.len() - 1 - i]);
            assert(pool.reverse()[j] == pool[pool.len() - 1 - j]);
        }
        lemma_run_keeps_sparse(rest, seed, threshold, todo);
    }
}

/// A run only ever adds to the end of the accepted set.
pub proof fn lemma_run_extends(pool: Seq<Snp>, accepted: Seq<Snp>, threshold: int, todo: int)
    ensures
        accepted.is_prefix_of(run(pool, accepted, threshold, todo)),
    decreases pool.len(),
{
    if pool.len() > 0 {
        let next = consider(accepted, pool.last(), threshold);
        if next.len() <= todo {
            lemma_run_extends(pool.drop_last(), next, threshold, todo);
        }
    }
}

/// A run stops at the first record beyond the quota.
pub proof fn lemma_run_len(pool: Seq<Snp>, accepted: Seq<Snp>, threshold: int, todo: int)
    requires
        accepted.len() <= todo,
    ensures
        run(pool, accepted, threshold, todo).len() <= todo + 1,
    decreases pool.len(),
{
    if pool.len() > 0 {
        let next = consider(accepted, pool.last(), threshold);
        if next.len() <= todo {
            lemma_run_len(pool.drop_last(), next, threshold, todo);
        }
    }
}

/// A run accepts one record for each candidate at most.
pub proof fn lemma_run_within_pool(pool: Seq<Snp>, accepted: Seq<Snp>, threshold: int, todo: int)
    ensures
        run(pool, accepted, threshold, todo).len() <= accepted.len() + pool.len(),
    decreases pool.len(),
{
    if pool.len() > 0 {
        let next = consider(accepted, pool.last(), threshold);
        if next.len() <= todo {
            lemma_run_within_pool(pool.drop_last(), next, threshold, todo);
        }
    }
}

/// The selection is never larger than the pool and holds at least the seed.
pub proof fn lemma_greedy_within_pool(pool: Seq<Snp>, threshold: int, todo: int)
    ensures
        greedy(pool, threshold, todo).len() <= pool.len(),
        pool.len() > 0 ==> greedy(pool, threshold, todo).len() >= 1,
{
    if pool.len() > 0 {
        let seed = seq![pool.last()];
        lemma_run_within_pool(pool.drop_last(), seed, threshold, todo);
        lemma_run_extends(pool.drop_last(), seed, threshold, todo);
    }
}

/// The selection overshoots a quota of one or more by one record at most.
pub proof fn lemma_greedy_len(pool: Seq<Snp>, threshold: int, todo: int)
    requires
        todo >= 1,
    ensures
        greedy(pool, threshold, todo).len() <= todo + 1,
{
    if pool.len() > 0 {
        lemma_run_len(pool.drop_last(), seq![pool.last()], threshold, todo);
    }
}

/// What a run accepts comes from what it started with and from its pool,
/// each record as often as it stood there at most.
pub proof fn lemma_run_draws_from_pool(
    pool: Seq<Snp>,
    accepted: Seq<Snp>,
    threshold: int,
    todo: int,
)
    ensures
        run(pool, accepted, threshold, todo).to_multiset().subset_of(
            accepted.to_multiset().add(pool.to_multiset()),
        ),
    decreases pool.len(),
{
    broadcast use vstd::seq_lib::to_multiset_build;

    if pool.len() > 0 {
        let candidate = pool.last();
        let rest = pool.drop_last();
        let next = consider(accepted, candidate, threshold);
        assert(pool =~= rest.push(candidate));
        assert(pool.to_multiset() =~= rest.to_multiset().insert(candidate));
        if next.len() <= todo {
            lemma_run_draws_from_pool(rest, next, threshold, todo);
        }
    }
}

/// Every selected record is a record of the pool, and none is selected more
/// often than the pool holds it.
pub proof fn lemma_greedy_draws_from_pool(pool: Seq<Snp>, threshold: int, todo: int)
    ensures
        greedy(pool, threshold, todo).to_multiset().subset_of(pool.to_multiset()),
{
    broadcast use vstd::seq_lib::group_to_multiset_ensures;

    if pool.len() > 0 {
        let seed = seq![pool.last()];
        let rest = pool.drop_last();
        assert(pool =~= rest.push(pool.last()));
        assert(seed =~= Seq::<Snp>::empty().push(pool.last()));
        assert(Seq::<Snp>::empty().to_multiset().len() == 0);
        lemma_run_draws_from_pool(rest, seed, threshold, todo);
    }
}

/// A record that a set blocks is blocked by every set that begins with it.
pub proof fn lemma_blocked_by_longer(candidate: Snp, shorter: Seq<Snp>, longer: Seq<Snp>, threshold: int)
    requires
        shorter.is_prefix_of(longer),
        blocked(candidate@, shorter, threshold),
    ensures
        blocked(candidate@, longer, threshold),
{
    let i = choose|i: int|
        0 <= i < shorter.len() && conflicts(candidate@, #[trigger] shorter[i]@, threshold);
    assert(longer[i] == shorter[i]);
}

/// A run that ends within the quota has looked at its whole pool: each
/// candidate was accepted or is blocked by what was accepted.
pub proof fn lemma_run_exhaustive(pool: Seq<Snp>, accepted: Seq<Snp>, threshold: int, todo: int)
    requires
        run(pool, accepted, threshold, todo).len() <= todo,
    ensures
        forall|k: int|
            0 <= k < pool.len() ==> run(pool, accepted, threshold, todo).contains(#[trigger] pool[k])
                || blocked(pool[k]@, run(pool, accepted, threshold, todo), threshold),
    decreases pool.len(),
{
    let end = run(pool, accepted, threshold, todo);
    if pool.len() > 0 {
        let candidate = pool.last();
        let rest = pool.drop_last();
        let next = consider(accepted, candidate, threshold);
        lemma_run_exhaustive(rest, next, threshold, todo);
        lemma_run_extends(rest, next, threshold, todo);
        assert forall|k: int| 0 <= k < pool.len() implies end.contains(#[trigger] pool[k])
            || blocked(pool[k]@, end, threshold) by {
            if k < rest.len() {
                assert(pool[k] == rest[k]);
            } else if blocked(candidate@, accepted, threshold) {
                lemma_blocked_by_longer(candidate, next, end, threshold);
            } else {
                assert(end[accepted.len() as int] == next[accepted.len() as int]);
            }
        }
    }
}

/// A selection that falls short of the quota cannot be extended: every
/// record of the pool was selected or conflicts with a selected one.
pub proof fn lemma_shortfall_is_maximal(pool: Seq<Snp>, threshold: int, todo: int)
    requires
        greedy(pool, threshold, todo).len() <= todo,
    ensures
        forall|k: int|
            0 <= k < pool.len() ==> greedy(pool, threshold, todo).contains(#[trigger] pool[k])
                || blocked(pool[k]@, greedy(pool, threshold, todo), threshold),
{
    if pool.len() > 0 {
        let seed = seq![pool.last()];
        let rest = pool.drop_last();
        let end = greedy(pool, threshold, todo);
        lemma_run_exhaustive(rest, seed, threshold, todo);
        lemma_run_extends(rest, seed, threshold, todo);
        assert(end[0] == seed[0]);
        assert forall|k: int| 0 <= k < pool.len() implies end.contains(#[trigger] pool[k])
            || blocked(pool[k]@, end, threshold) by {
            if k < rest.len() {
                assert(pool[k] == rest[k]);
            }
        }
    }
}

/// `accepted` is what the selection gives on the records of `pool`, taken in
/// some order.
pub open spec fn sampled_from(accepted: Seq<Snp>, pool: Seq<Snp>, threshold: int, todo: int) -> bool {
    exists|order: Seq<Snp>|
        order.to_multiset() == pool.to_multiset() && accepted == #[trigger] greedy(
            order,
            threshold,
            todo,
        )
}

/// What holds of a sample whatever order the shuffle gave: it is spaced, it
/// is drawn from the pool, it holds the seed, it overshoots the quota by one
/// at most, it keeps a sparse pool whole when the quota allows, and when it
/// falls short of the quota no record of the pool could be added to it.
pub open spec fn sample_of(accepted: Seq<Snp>, pool: Seq<Snp>, threshold: int, todo: int) -> bool {
    &&& sampled_from(accepted, pool, threshold, todo)
    &&& well_spaced(accepted, threshold)
    &&& accepted.to_multiset().subset_of(pool.to_multiset())
    &&& accepted.len() <= pool.len()
    &&& pool.len() > 0 ==> accepted.len() >= 1
    &&& todo >= 1 ==> accepted.len() <= todo + 1
    &&& well_spaced(pool, threshold) && todo >= pool.len() ==> accepted.to_multiset()
        == pool.to_multiset()
    &&& accepted.len() <= todo ==> forall|k: int|
        0 <= k < pool.len() ==> accepted.contains(#[trigger] pool[k]) || blocked(
            pool[k]@,
            accepted,
            threshold,
        )
}

/// The selection on any rearrangement of a pool is a sample of that pool.
pub proof fn lemma_selection_is_sample(order: Seq<Snp>, pool: Seq<Snp>, threshold: int, todo: int)
    requires
        order.to_multiset() == pool.to_multiset(),
    ensures
        sample_of(greedy(order, threshold, todo), pool, threshold, todo),
{
    broadcast use vstd::seq_lib::group_to_multiset_ensures;

    let accepted = greedy(order, threshold, todo);
    lemma_greedy_spaced(order, threshold, todo);
    lemma_greedy_draws_from_pool(order, threshold, todo);
    assert(order.len() == pool.len()) by {
        vstd::seq_lib::to_multiset_len(order);
        vstd::seq_lib::to_multiset_len(pool);
    }
    lemma_greedy_within_pool(order, threshold, todo);
    if todo >= 1 {
        lemma_greedy_len(order, threshold, todo);
    }
    if well_spaced(pool, threshold) && todo >= pool.len() {
        lemma_spacing_of_rearranged(pool, order, threshold);
        lemma_sparse_pool_kept(order, threshold, todo);
    }
    if accepted.len() <= todo {
        lemma_shortfall_is_maximal(order, threshold, todo);
        assert forall|k: int| 0 <= k < pool.len() implies accepted.contains(#[trigger] pool[k])
            || blocked(pool[k]@, accepted, threshold) by {
            assert(pool.contains(pool[k]));
            assert(pool.to_multiset().count(pool[k]) > 0);
            assert(order.to_multiset().count(pool[k]) > 0);
            assert(order.contains(pool[k]));
            let m = choose|m: int| 0 <= m < order.len() && order[m] == pool[k];
            assert(accepted.contains(order[m]) || blocked(order[m]@, accepted, threshold));
        }
    }
}

/// With room for the whole pool in the quota, a run never stops early, so
/// the quota does not matter.
pub proof fn lemma_run_with_room(
    pool: Seq<Snp>,
    accepted: Seq<Snp>,
    threshold: int,
    todo: int,
    other: int,
)
    requires
        todo >= accepted.len() + pool.len(),
        other >= accepted.len() + pool.len(),
    ensures
        run(pool, accepted, threshold, todo) == run(pool, accepted, threshold, other),
    decreases pool.len(),
{
    if pool.len() > 0 {
        let next = consider(accepted, pool.last(), threshold);
        lemma_run_with_room(pool.drop_last(), next, threshold, todo, other);
    }
}

/// A sample for one quota with room for the whole pool is a sample for any
/// other such quota.
pub proof fn lemma_sample_with_room(
    accepted: Seq<Snp>,
    pool: Seq<Snp>,
    threshold: int,
    todo: int,
    other: int,
)
    requires
        sample_of(accepted, pool, threshold, todo),
        todo >= pool.len(),
        other >= pool.len(),
    ensures
        sample_of(accepted, pool, threshold, other),
{
    let order = choose|order: Seq<Snp>|
        order.to_multiset() == pool.to_multiset() && accepted == #[trigger] greedy(
            order,
            threshold,
            todo,
        );
    vstd::seq_lib::to_multiset_len(order);
    vstd::seq_lib::to_multiset_len(pool);
    if order.len() > 0 {
        lemma_run_with_room(order.drop_last(), seq![order.last()], threshold, todo, other);
    }
    assert(accepted == greedy(order, threshold, other));
}

} // verus!
