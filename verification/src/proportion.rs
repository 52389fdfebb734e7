//! Systematic selection picks each particle in proportion to its weight.
//!
//! The draws of one resampling step are evenly spaced: draw `i` lies at
//! `offset + i * spacing`, and the one random choice is the offset, below the
//! spacing. This module counts, over all offsets, how often a slot is picked.

use crate::systematic::{
    draws_below_total, in_share, is_ascending, is_selection, lemma_pick_is_share,
    lemma_selection_exists,
};
use vstd::prelude::*;

verus! {

/// The draws of one step: `count` keys, `spacing` apart, the first at
/// `offset`.
pub open spec fn even_draws(offset: nat, spacing: nat, count: nat) -> Seq<u64> {
    Seq::new(count, |i: int| (offset + i * spacing) as u64)
}

/// The weight of a slot, in units of the keys: the width of its share.
pub open spec fn share_width(cumulative: Seq<u64>, slot: int) -> int {
    if slot == 0 {
        cumulative[0] as int
    } else {
        cumulative[slot] - cumulative[slot - 1]
    }
}

/// The selection for `draws` against `cumulative`, where there is one.
pub open spec fn selection_of(cumulative: Seq<u64>, draws: Seq<u64>) -> Seq<usize> {
    choose|picks: Seq<usize>| is_selection(cumulative, draws, picks)
}

/// How many of the first `upto` picks are `slot`.
pub open spec fn copies(picks: Seq<usize>, slot: int, upto: nat) -> nat
    decreases upto,
{
    if upto == 0 {
        0
    } else {
        copies(picks, slot, (upto - 1) as nat) + if picks[upto - 1] == slot {
            1nat
        } else {
            0nat
        }
    }
}

/// How many copies of `slot` the steps with the offsets below `offsets` make
/// in all, each step with `count` draws that are `spacing` apart.
pub open spec fn copies_over_offsets(
    cumulative: Seq<u64>,
    slot: int,
    spacing: nat,
    count: nat,
    offsets: nat,
) -> nat
    decreases offsets,
{
    if offsets == 0 {
        0
    } else {
        copies_over_offsets(cumulative, slot, spacing, count, (offsets - 1) as nat) + copies(
            selection_of(cumulative, even_draws((offsets - 1) as nat, spacing, count)),
            slot,
            count,
        )
    }
}

spec fn hit(lo: int, hi: int, x: int) -> nat {
    if lo <= x < hi {
        1
    } else {
        0
    }
}

spec fn overlap(lo: int, hi: int, from: int, to: int) -> int {
    let top = if hi < to {
        hi
    } else {
        to
    };
    let bottom = if lo > from {
        lo
    } else {
        from
    };
    if top > bottom {
        top - bottom
    } else {
        0
    }
}

/// Hits among the draws `i < count` of the step with offset `offset`.
spec fn column(lo: int, hi: int, spacing: nat, offset: nat, count: nat) -> nat
    decreases count,
{
    if count == 0 {
        0
    } else {
        column(lo, hi, spacing, offset, (count - 1) as nat) + hit(
            lo,
            hi,
            offset + (count - 1) * spacing,
        )
    }
}

/// Hits among the keys `base + u` for `u < offsets`.
spec fn row(lo: int, hi: int, base: int, offsets: nat) -> nat
    decreases offsets,
{
    if offsets == 0 {
        0
    } else {
        row(lo, hi, base, (offsets - 1) as nat) + hit(lo, hi, base + offsets - 1)
    }
}

/// Hits among all draws of the steps with the offsets below `offsets`.
spec fn grid(lo: int, hi: int, spacing: nat, count: nat, offsets: nat) -> nat
    decreases offsets,
{
    if offsets == 0 {
        0
    } else {
        grid(lo, hi, spacing, count, (offsets - 1) as nat) + column(
            lo,
            hi,
            spacing,
            (offsets - 1) as nat,
            count,
        )
    }
}

proof fn lemma_row_is_overlap(lo: int, hi: int, base: int, offsets: nat)
    requires
        lo <= hi,
    ensures
        row(lo, hi, base, offsets) == overlap(lo, hi, base, base + offsets),
    decreases offsets,
{
    if offsets > 0 {
        lemma_row_is_overlap(lo, hi, base, (offsets - 1) as nat);
    }
}

proof fn lemma_grid_without_draws(lo: int, hi: int, spacing: nat, offsets: nat)
    ensures
        grid(lo, hi, spacing, 0, offsets) == 0,
    decreases offsets,
{
    if offsets > 0 {
        lemma_grid_without_draws(lo, hi, spacing, (offsets - 1) as nat);
    }
}

proof fn lemma_grid_step(lo: int, hi: int, spacing: nat, count: nat, offsets: nat)
    requires
        count > 0,
    ensures
        grid(lo, hi, spacing, count, offsets) == grid(lo, hi, spacing, (count - 1) as nat, offsets)
            + row(lo, hi, (count - 1) * spacing, offsets),
    decreases offsets,
{
    if offsets > 0 {
        lemma_grid_step(lo, hi, spacing, count, (offsets - 1) as nat);
    }
}

proof fn lemma_grid_is_overlap(lo: int, hi: int, spacing: nat, count: nat)
    requires
        lo <= hi,
    ensures
        grid(lo, hi, spacing, count, spacing) == overlap(lo, hi, 0, (count * spacing) as int),
    decreases count,
{
    if count == 0 {
        lemma_grid_without_draws(lo, hi, spacing, spacing);
        assert(0 * spacing == 0) by (nonlinear_arith);
    } else {
        lemma_grid_is_overlap(lo, hi, spacing, (count - 1) as nat);
        lemma_grid_step(lo, hi, spacing, count, spacing);
        lemma_row_is_overlap(lo, hi, (count - 1) * spacing, spacing);
        assert((count - 1) * spacing + spacing == count * spacing) by (nonlinear_arith);
        assert((count - 1) * spacing >= 0) by (nonlinear_arith)
            requires
                count >= 1,
        ;
    }
}

proof fn lemma_even_draws(cumulative: Seq<u64>, offset: nat, spacing: nat, count: nat)
    requires
        cumulative.len() > 0,
        count * spacing == cumulative[cumulative.len() - 1],
        offset < spacing,
    ensures
        is_ascending(even_draws(offset, spacing, count)),
        draws_below_total(cumulative, even_draws(offset, spacing, count)),
        forall|i: int|
            0 <= i < count ==> (#[trigger] even_draws(offset, spacing, count)[i]) == offset + i
                * spacing,
{
    let draws = even_draws(offset, spacing, count);
    assert forall|i: int| 0 <= i < count implies (#[trigger] draws[i]) == offset + i * spacing
        && draws[i] < count * spacing by {
        assert(offset + i * spacing < count * spacing && 0 <= i * spacing) by (nonlinear_arith)
            requires
                0 <= i < count,
                offset < spacing,
        ;
    }
    assert forall|i: int, j: int| 0 <= i <= j < draws.len() implies draws[i] <= draws[j] by {
        assert(i * spacing <= j * spacing) by (nonlinear_arith)
            requires
                0 <= i <= j,
        ;
    }
}

proof fn lemma_copies_is_column(
    cumulative: Seq<u64>,
    slot: int,
    spacing: nat,
    count: nat,
    offset: nat,
    picks: Seq<usize>,
    upto: nat,
)
    requires
        is_ascending(cumulative),
        0 <= slot < cumulative.len(),
        count * spacing == cumulative[cumulative.len() - 1],
        offset < spacing,
        is_selection(cumulative, even_draws(offset, spacing, count), picks),
        upto <= count,
    ensures
        copies(picks, slot, upto) == column(
            cumulative[slot] - share_width(cumulative, slot),
            cumulative[slot] as int,
            spacing,
            offset,
            upto,
        ),
    decreases upto,
{
    if upto > 0 {
        let draws = even_draws(offset, spacing, count);
        lemma_copies_is_column(cumulative, slot, spacing, count, offset, picks, (upto - 1) as nat);
        lemma_even_draws(cumulative, offset, spacing, count);
        lemma_pick_is_share(cumulative, draws, picks, upto - 1, slot);
        assert(draws[upto - 1] == offset + (upto - 1) * spacing);
    }
}

proof fn lemma_copies_is_grid(
    cumulative: Seq<u64>,
    slot: int,
    spacing: nat,
    count: nat,
    offsets: nat,
)
    requires
        is_ascending(cumulative),
        cumulative.len() <= usize::MAX,
        0 <= slot < cumulative.len(),
        count * spacing == cumulative[cumulative.len() - 1],
        offsets <= spacing,
    ensures
        copies_over_offsets(cumulative, slot, spacing, count, offsets) == grid(
            cumulative[slot] - share_width(cumulative, slot),
            cumulative[slot] as int,
            spacing,
            count,
            offsets,
        ),
    decreases offsets,
{
    if offsets > 0 {
        let offset = (offsets - 1) as nat;
        let draws = even_draws(offset, spacing, count);
        lemma_copies_is_grid(cumulative, slot, spacing, count, offset);
        lemma_even_draws(cumulative, offset, spacing, count);
        lemma_selection_exists(cumulative, draws);
        lemma_copies_is_column(
            cumulative,
            slot,
            spacing,
            count,
            offset,
            selection_of(cumulative, draws),
            count,
        );
    }
}

/// Systematic selection is proportional. Let the cumulative weights ascend to
/// a total of `count * spacing`, and let a step take `count` draws that are
/// `spacing` apart, the first at an offset below `spacing`. Then the steps of
/// all `spacing` offsets together make as many copies of a slot as its weight
/// is wide. Where every offset is as likely as any other, a step therefore
/// makes `count * weight / total` copies of a particle on average.
pub proof fn lemma_selection_proportional(
    cumulative: Seq<u64>,
    slot: int,
    spacing: nat,
    count: nat,
)
    requires
        is_ascending(cumulative),
        cumulative.len() <= usize::MAX,
        0 <= slot < cumulative.len(),
        count * spacing == cumulative[cumulative.len() - 1],
    ensures
        copies_over_offsets(cumulative, slot, spacing, count, spacing) == share_width(
            cumulative,
            slot,
        ),
{
    let hi = cumulative[slot] as int;
    let lo = hi - share_width(cumulative, slot);
    lemma_copies_is_grid(cumulative, slot, spacing, count, spacing);
    lemma_grid_is_overlap(lo, hi, spacing, count);
    assert(0 <= lo <= hi);
    assert(hi <= cumulative[cumulative.len() - 1]);
}

} // verus!
