//! Systematic (low-variance) selection of ancestors.
//!
//! Weights and draw points are real numbers; what the selection needs of them
//! is their order alone. The functions here therefore work on keys: unsigned
//! integers that are ordered as the numbers they stand for.

use crate::error::FilterError;
use vstd::prelude::*;

verus! {

/// The slot at which the walk starts looking for draw `i`: the slot picked for
/// the draw before it, and slot 0 for the first draw.
pub open spec fn walk_start(picks: Seq<usize>, i: int) -> int {
    if i <= 0 {
        0
    } else {
        picks[i - 1] as int
    }
}

/// `slot` is the first slot at or after `from` whose cumulative weight lies
/// strictly above `draw`.
pub open spec fn is_first_above(cumulative: Seq<u64>, draw: u64, from: int, slot: int) -> bool {
    &&& from <= slot < cumulative.len()
    &&& draw < cumulative[slot]
    &&& forall|k: int| from <= k < slot ==> cumulative[k] <= draw
}

/// Pick `i` is the slot that the walk assigns to draw `i`, given the pick
/// before it.
pub open spec fn is_pick(cumulative: Seq<u64>, draws: Seq<u64>, picks: Seq<usize>, i: int) -> bool {
    is_first_above(cumulative, draws[i], walk_start(picks, i), picks[i] as int)
}

/// The first `count` picks are the ones that the two-pointer walk assigns to
/// the first `count` draws.
pub open spec fn selects_prefix(
    cumulative: Seq<u64>,
    draws: Seq<u64>,
    picks: Seq<usize>,
    count: int,
) -> bool {
    forall|i: int| 0 <= i < count ==> #[trigger] is_pick(cumulative, draws, picks, i)
}

/// `picks` is the systematic selection for `draws` against `cumulative`: one
/// pick per draw, each the first slot, from the previous pick on, whose
/// cumulative weight lies strictly above the draw.
pub open spec fn is_selection(cumulative: Seq<u64>, draws: Seq<u64>, picks: Seq<usize>) -> bool {
    &&& picks.len() == draws.len()
    &&& selects_prefix(cumulative, draws, picks, draws.len() as int)
}

/// Every draw lies strictly below the last cumulative weight.
pub open spec fn draws_below_total(cumulative: Seq<u64>, draws: Seq<u64>) -> bool {
    &&& cumulative.len() > 0
    &&& forall|i: int| 0 <= i < draws.len() ==> draws[i] < cumulative[cumulative.len() - 1]
}

/// The keys come in ascending order; equal neighbours are allowed.
pub open spec fn is_ascending(keys: Seq<u64>) -> bool {
    forall|i: int, j: int| 0 <= i <= j < keys.len() ==> keys[i] <= keys[j]
}

/// `draw` falls into the share of slot `slot`: at or above the cumulative
/// weight of the slot before it, and strictly below its own.
pub open spec fn in_share(cumulative: Seq<u64>, slot: int, draw: u64) -> bool {
    &&& 0 <= slot < cumulative.len()
    &&& slot > 0 ==> cumulative[slot - 1] <= draw
    &&& draw < cumulative[slot]
}

/// The entries of `source` named by `indices`, in the order of `indices`.
pub open spec fn gathered<T>(source: Seq<T>, indices: Seq<usize>) -> Seq<T> {
    Seq::new(indices.len(), |i: int| source[indices[i] as int])
}

/// Every index names an entry of an array of `len` entries.
pub open spec fn indices_within(indices: Seq<usize>, len: nat) -> bool {
    forall|i: int| 0 <= i < indices.len() ==> indices[i] < len
}

/// Assigns an ancestor to every draw point by one walk over both arrays.
///
/// `cumulative[j]` is the key of the summed weight of particles `0..=j`, and
/// `draws[i]` the key of the `i`-th draw point. The walk keeps one pointer into
/// each array and never moves either back, so it takes time linear in the two
/// lengths.
///
/// The result is the selection if there is one. There is one whenever every
/// draw lies below the last cumulative weight.
pub fn systematic_indices(draws: &Vec<u64>, cumulative: &Vec<u64>) -> (r: Result<
    Vec<usize>,
    FilterError,
>)
    ensures
        match r {
            Ok(picks) => is_selection(cumulative@, draws@, picks@),
            Err(e) => e == FilterError::DrawOutOfRange && forall|p: Seq<usize>|
                !is_selection(cumulative@, draws@, p),
        },
        draws_below_total(cumulative@, draws@) ==> r is Ok,
{
    let n: usize = draws.len();
    let m: usize = cumulative.len();
    let mut picks: Vec<usize> = Vec::new();
    let mut i: usize = 0;
    let mut j: usize = 0;
    while i < n
        invariant
            n == draws.len(),
            m == cumulative.len(),
            i <= n,
            j <= m,
            picks.len() == i,
            selects_prefix(cumulative@, draws@, picks@, i as int),
            walk_start(picks@, i as int) <= j,
            i < n ==> forall|k: int|
                walk_start(picks@, i as int) <= k < j ==> cumulative[k] <= draws[i as int],
            draws_below_total(cumulative@, draws@) ==> j < m,
        decreases (n - i) + (m - j),
    {
        if j >= m {
            proof {
                assert forall|p: Seq<usize>| !is_selection(cumulative@, draws@, p) by {
                    if is_selection(cumulative@, draws@, p) {
                        lemma_prefix_unique(cumulative@, draws@, p, picks@, i as int);
                        assert(walk_start(p, i as int) == walk_start(picks@, i as int)) by {
                            if i > 0 {
                                assert(p[i - 1] == picks[i - 1]);
                            }
                        }
                        assert(is_pick(cumulative@, draws@, p, i as int));
                    }
                }
            }
            return Err(FilterError::DrawOutOfRange);
        }
        if draws[i] < cumulative[j] {
            let ghost before = picks@;
            picks.push(j);
            proof {
                assert forall|t: int| 0 <= t < i + 1 implies #[trigger] is_pick(
                    cumulative@,
                    draws@,
                    picks@,
                    t,
                ) by {
                    if t < i {
                        assert(is_pick(cumulative@, draws@, before, t));
                    }
                }
            }
            i += 1;
        } else {
            j += 1;
        }
    }
    Ok(picks)
}

/// Builds a fresh array whose `i`-th entry is a copy of `source[indices[i]]`.
/// The source is only read, so an entry may be copied any number of times.
pub fn gather<T: Copy>(source: &Vec<T>, indices: &Vec<usize>) -> (r: Result<Vec<T>, FilterError>)
    ensures
        match r {
            Ok(out) => indices_within(indices@, source@.len()) && out@ == gathered(
                source@,
                indices@,
            ),
            Err(e) => e == FilterError::IndexOutOfRange && !indices_within(
                indices@,
                source@.len(),
            ),
        },
{
    let n: usize = indices.len();
    let mut out: Vec<T> = Vec::with_capacity(n);
    let mut i: usize = 0;
    while i < n
        invariant
            n == indices.len(),
            i <= n,
            out.len() == i,
            forall|t: int| 0 <= t < i ==> indices[t] < source.len(),
            forall|t: int| 0 <= t < i ==> out[t] == source[indices[t] as int],
        decreases n - i,
    {
        let at: usize = indices[i];
        if at >= source.len() {
            return Err(FilterError::IndexOutOfRange);
        }
        out.push(source[at]);
        i += 1;
    }
    assert(out@ =~= gathered(source@, indices@));
    Ok(out)
}

/// Two walks over the same draws agree on every pick they both made.
pub proof fn lemma_prefix_unique(
    cumulative: Seq<u64>,
    draws: Seq<u64>,
    p: Seq<usize>,
    q: Seq<usize>,
    count: int,
)
    requires
        0 <= count <= p.len(),
        count <= q.len(),
        selects_prefix(cumulative, draws, p, count),
        selects_prefix(cumulative, draws, q, count),
    ensures
        forall|i: int| 0 <= i < count ==> p[i] == q[i],
    decreases count,
{
    if count > 0 {
        lemma_prefix_unique(cumulative, draws, p, q, count - 1);
        let i = count - 1;
        assert(walk_start(p, i) == walk_start(q, i)) by {
            if i > 0 {
                assert(p[i - 1] == q[i - 1]);
            }
        }
        assert(is_pick(cumulative, draws, p, i));
        assert(is_pick(cumulative, draws, q, i));
    }
}

/// There is at most one selection for given draws and cumulative weights.
pub proof fn lemma_selection_unique(
    cumulative: Seq<u64>,
    draws: Seq<u64>,
    p: Seq<usize>,
    q: Seq<usize>,
)
    requires
        is_selection(cumulative, draws, p),
        is_selection(cumulative, draws, q),
    ensures
        p == q,
{
    lemma_prefix_unique(cumulative, draws, p, q, draws.len() as int);
    assert(p =~= q);
}

/// The picks of a selection never step back: a later draw is assigned the
/// same slot as an earlier one, or a later slot.
pub proof fn lemma_selection_ascending(
    cumulative: Seq<u64>,
    draws: Seq<u64>,
    picks: Seq<usize>,
    i: int,
    j: int,
)
    requires
        is_selection(cumulative, draws, picks),
        0 <= i <= j < draws.len(),
    ensures
        picks[i] <= picks[j],
    decreases j - i,
{
    if i < j {
        lemma_selection_ascending(cumulative, draws, picks, i, j - 1);
        assert(is_pick(cumulative, draws, picks, j));
    }
}

/// For draws in ascending order each pick is the first slot of all whose
/// cumulative weight lies strictly above the draw: the walk skips no slot
/// that a later draw could have used.
pub proof fn lemma_ascending_draws_pick_first(
    cumulative: Seq<u64>,
    draws: Seq<u64>,
    picks: Seq<usize>,
    i: int,
)
    requires
        is_selection(cumulative, draws, picks),
        is_ascending(draws),
        0 <= i < draws.len(),
    ensures
        is_first_above(cumulative, draws[i], 0, picks[i] as int),
    decreases i,
{
    assert(is_pick(cumulative, draws, picks, i));
    if i > 0 {
        lemma_ascending_draws_pick_first(cumulative, draws, picks, i - 1);
        assert(draws[i - 1] <= draws[i]);
    }
}

/// For draws and cumulative weights in ascending order, a draw is assigned
/// slot `slot` exactly when it falls into the share of that slot. A particle
/// therefore has as many copies as there are draws in its share.
pub proof fn lemma_pick_is_share(
    cumulative: Seq<u64>,
    draws: Seq<u64>,
    picks: Seq<usize>,
    i: int,
    slot: int,
)
    requires
        is_selection(cumulative, draws, picks),
        is_ascending(draws),
        is_ascending(cumulative),
        0 <= i < draws.len(),
    ensures
        picks[i] == slot <==> in_share(cumulative, slot, draws[i]),
{
    lemma_ascending_draws_pick_first(cumulative, draws, picks, i);
    let pick = picks[i] as int;
    if in_share(cumulative, slot, draws[i]) {
        if slot < pick {
            assert(cumulative[slot] <= draws[i]);
        } else if pick < slot {
            assert(cumulative[pick] <= cumulative[slot - 1]);
        }
    }
}

proof fn first_above_witness(cumulative: Seq<u64>, draw: u64, from: int) -> (slot: int)
    requires
        0 <= from < cumulative.len(),
        draw < cumulative[cumulative.len() - 1],
    ensures
        is_first_above(cumulative, draw, from, slot),
    decreases cumulative.len() - from,
{
    if draw < cumulative[from] {
        from
    } else {
        first_above_witness(cumulative, draw, from + 1)
    }
}

proof fn selection_witness(cumulative: Seq<u64>, draws: Seq<u64>, count: int) -> (picks: Seq<usize>)
    requires
        draws_below_total(cumulative, draws),
        cumulative.len() <= usize::MAX,
        0 <= count <= draws.len(),
    ensures
        picks.len() == count,
        selects_prefix(cumulative, draws, picks, count),
    decreases count,
{
    if count == 0 {
        Seq::empty()
    } else {
        let before = selection_witness(cumulative, draws, count - 1);
        if count > 1 {
            assert(is_pick(cumulative, draws, before, count - 2));
        }
        let slot = first_above_witness(cumulative, draws[count - 1], walk_start(before, count - 1));
        let picks = before.push(slot as usize);
        assert forall|i: int| 0 <= i < count implies #[trigger] is_pick(
            cumulative,
            draws,
            picks,
            i,
        ) by {
            if i < count - 1 {
                assert(is_pick(cumulative, draws, before, i));
            }
        }
        picks
    }
}

/// Where every draw lies strictly below the last cumulative weight, there is
/// a selection. The cumulative weights are those of an array, so their number
/// fits a `usize`.
pub proof fn lemma_selection_exists(cumulative: Seq<u64>, draws: Seq<u64>)
    requires
        draws_below_total(cumulative, draws),
        cumulative.len() <= usize::MAX,
    ensures
        exists|picks: Seq<usize>| is_selection(cumulative, draws, picks),
{
    let picks = selection_witness(cumulative, draws, draws.len() as int);
    assert(is_selection(cumulative, draws, picks));
}

} // verus!
