//! Grouping particles by the cluster that a clustering run assigned them to.

use crate::error::FilterError;
use vstd::prelude::*;

verus! {

/// The indices `0, 1, .., count - 1`.
pub open spec fn indices(count: nat) -> Seq<usize> {
    Seq::new(count, |i: int| i as usize)
}

/// Tells whether a particle carries `label`.
pub open spec fn has_label(labels: Seq<usize>, label: usize) -> spec_fn(usize) -> bool {
    |i: usize| labels[i as int] == label
}

/// The particles that carry `label`, in ascending order.
pub open spec fn members(labels: Seq<usize>, label: usize) -> Seq<usize> {
    indices(labels.len()).filter(has_label(labels, label))
}

/// Tells whether a label is carried by at least one particle.
pub open spec fn is_populated(labels: Seq<usize>) -> spec_fn(usize) -> bool {
    |label: usize| members(labels, label).len() > 0
}

/// The labels below `k` that at least one particle carries, in ascending order.
pub open spec fn populated(labels: Seq<usize>, k: nat) -> Seq<usize> {
    indices(k).filter(is_populated(labels))
}

/// One group per populated label below `k`, in ascending order of the label;
/// each group lists its particles in ascending order.
pub open spec fn groups(labels: Seq<usize>, k: nat) -> Seq<Seq<usize>> {
    populated(labels, k).map_values(|label: usize| members(labels, label))
}

/// Every label is below `k`.
pub open spec fn labels_below(labels: Seq<usize>, k: nat) -> bool {
    forall|i: int| 0 <= i < labels.len() ==> labels[i] < k
}

/// The contents of a list of groups.
pub open spec fn group_views(out: Seq<Vec<usize>>) -> Seq<Seq<usize>> {
    out.map_values(|group: Vec<usize>| group@)
}

/// The first error, if any, that grouping `labels` into `k` clusters meets.
pub open spec fn grouping_error(labels: Seq<usize>, k: nat) -> Option<FilterError> {
    if k == 0 {
        Some(FilterError::NoClusters)
    } else if k > labels.len() {
        Some(FilterError::TooManyClusters)
    } else if !labels_below(labels, k) {
        Some(FilterError::LabelOutOfRange)
    } else {
        None
    }
}

proof fn lemma_indices_step(count: nat)
    ensures
        indices(count + 1) == indices(count).push(count as usize),
{
    assert(indices(count + 1) =~= indices(count).push(count as usize));
}

/// What is left of the first `count` indices after filtering: the indices
/// that meet `pred`, each once, in ascending order.
proof fn lemma_filtered_indices(count: nat, pred: spec_fn(usize) -> bool)
    requires
        count <= usize::MAX + 1,
    ensures
        ({
            let kept = indices(count).filter(pred);
            &&& kept.len() <= count
            &&& forall|t: int| 0 <= t < kept.len() ==> (#[trigger] kept[t]) < count && pred(kept[t])
            &&& forall|s: int, t: int| 0 <= s < t < kept.len() ==> kept[s] < kept[t]
            &&& forall|i: usize| i < count && pred(i) ==> #[trigger] kept.contains(i)
        }),
    decreases count,
{
    let kept = indices(count).filter(pred);
    if count == 0 {
        reveal(Seq::filter);
    } else {
        let fewer = (count - 1) as nat;
        let before = indices(fewer).filter(pred);
        lemma_filtered_indices(fewer, pred);
        lemma_indices_step(fewer);
        indices(fewer).lemma_filter_push(fewer as usize, pred);
        assert forall|i: usize| i < count && pred(i) implies #[trigger] kept.contains(i) by {
            if i < fewer {
                assert(before.contains(i));
                let at = choose|at: int| 0 <= at < before.len() && before[at] == i;
                assert(kept[at] == i);
            } else {
                assert(kept[kept.len() - 1] == i);
            }
        }
    }
}

/// The members of a label are the particles that carry it, each once, in
/// ascending order.
pub proof fn lemma_members(labels: Seq<usize>, label: usize)
    requires
        labels.len() <= usize::MAX,
    ensures
        members(labels, label).len() <= labels.len(),
        forall|t: int|
            0 <= t < members(labels, label).len() ==> (#[trigger] members(labels, label)[t])
                < labels.len() && labels[members(labels, label)[t] as int] == label,
        forall|s: int, t: int|
            0 <= s < t < members(labels, label).len() ==> members(labels, label)[s] < members(
                labels,
                label,
            )[t],
        forall|i: int|
            0 <= i < labels.len() && #[trigger] labels[i] == label ==> members(
                labels,
                label,
            ).contains(i as usize),
{
    lemma_filtered_indices(labels.len(), has_label(labels, label));
    assert forall|i: int| 0 <= i < labels.len() && #[trigger] labels[i] == label implies members(
        labels,
        label,
    ).contains(i as usize) by {
        assert(has_label(labels, label)(i as usize));
    }
}

/// There is one group for each populated label below `k`, in ascending order
/// of the labels, so at most `k` groups; none of them is empty.
pub proof fn lemma_groups(labels: Seq<usize>, k: nat)
    requires
        k <= usize::MAX,
    ensures
        groups(labels, k).len() == populated(labels, k).len(),
        groups(labels, k).len() <= k,
        forall|g: int|
            0 <= g < groups(labels, k).len() ==> {
                &&& (#[trigger] groups(labels, k)[g]) == members(labels, populated(labels, k)[g])
                &&& groups(labels, k)[g].len() > 0
                &&& populated(labels, k)[g] < k
            },
        forall|g: int, h: int|
            0 <= g < h < groups(labels, k).len() ==> populated(labels, k)[g] < populated(
                labels,
                k,
            )[h],
{
    lemma_filtered_indices(k, is_populated(labels));
}

/// Where every label is below `k`, the groups partition the particles: each
/// particle is in the group of its label and in no other.
pub proof fn lemma_groups_partition(labels: Seq<usize>, k: nat, i: int)
    requires
        k <= usize::MAX,
        labels.len() <= usize::MAX,
        labels_below(labels, k),
        0 <= i < labels.len(),
    ensures
        exists|g: int|
            0 <= g < groups(labels, k).len() && groups(labels, k)[g].contains(i as usize),
        forall|g: int, h: int|
            0 <= g < groups(labels, k).len() && 0 <= h < groups(labels, k).len() && groups(
                labels,
                k,
            )[g].contains(i as usize) && groups(labels, k)[h].contains(i as usize) ==> g == h,
{
    let label = labels[i];
    let all = groups(labels, k);
    let named = populated(labels, k);
    lemma_groups(labels, k);
    lemma_members(labels, label);
    lemma_filtered_indices(k, is_populated(labels));
    assert(members(labels, label).contains(i as usize));
    assert(is_populated(labels)(label));
    assert(named.contains(label));
    let g = choose|g: int| 0 <= g < named.len() && named[g] == label;
    assert(all[g].contains(i as usize));
    assert forall|g: int, h: int|
        0 <= g < all.len() && 0 <= h < all.len() && all[g].contains(i as usize) && all[h].contains(
            i as usize,
        ) implies g == h by {
        lemma_members(labels, named[g]);
        lemma_members(labels, named[h]);
        assert(named[g] == label);
        assert(named[h] == label);
        if g < h {
            assert(named[g] < named[h]);
        } else if h < g {
            assert(named[h] < named[g]);
        }
    }
}

/// Groups the particles by label.
///
/// `labels[i]` is the cluster of particle `i`, and `k` the number of clusters
/// that the labels were drawn from. Clusters that no particle was assigned to
/// are left out, so the result has at most `k` groups.
pub fn group_by_label(labels: &Vec<usize>, k: usize) -> (r: Result<Vec<Vec<usize>>, FilterError>)
    ensures
        match r {
            Ok(out) => {
                &&& grouping_error(labels@, k as nat) is None
                &&& group_views(out@) == groups(labels@, k as nat)
                &&& out@.len() <= k
            },
            Err(e) => grouping_error(labels@, k as nat) == Some(e),
        },
{
    let n: usize = labels.len();
    if k == 0 {
        return Err(FilterError::NoClusters);
    }
    if k > n {
        return Err(FilterError::TooManyClusters);
    }
    let mut buckets: Vec<Vec<usize>> = Vec::with_capacity(k);
    let mut c: usize = 0;
    while c < k
        invariant
            c <= k,
            buckets.len() == c,
            forall|b: int| 0 <= b < c ==> (#[trigger] buckets[b])@ == Seq::<usize>::empty(),
        decreases k - c,
    {
        buckets.push(Vec::new());
        c += 1;
    }
    let mut i: usize = 0;
    while i < n
        invariant
            n == labels.len(),
            i <= n,
            0 < k <= n,
            buckets.len() == k,
            forall|t: int| 0 <= t < i ==> labels[t] < k,
            forall|b: int|
                0 <= b < k ==> (#[trigger] buckets[b])@ == indices(i as nat).filter(
                    has_label(labels@, b as usize),
                ),
        decreases n - i,
    {
        let label: usize = labels[i];
        if label >= k {
            assert(!labels_below(labels@, k as nat)) by {
                assert(labels[i as int] >= k);
            }
            return Err(FilterError::LabelOutOfRange);
        }
        let ghost before = buckets@;
        buckets[label].push(i);
        proof {
            lemma_indices_step(i as nat);
            assert forall|b: int| 0 <= b < k implies (#[trigger] buckets[b])@ == indices(
                (i + 1) as nat,
            ).filter(has_label(labels@, b as usize)) by {
                indices(i as nat).lemma_filter_push(i, has_label(labels@, b as usize));
                assert(before[b]@ == indices(i as nat).filter(has_label(labels@, b as usize)));
            }
        }
        i += 1;
    }
    let mut out: Vec<Vec<usize>> = Vec::new();
    let mut c: usize = 0;
    while c < k
        invariant
            n == labels.len(),
            c <= k,
            buckets.len() == k,
            forall|b: int| c <= b < k ==> (#[trigger] buckets[b])@ == members(labels@, b as usize),
            group_views(out@) == groups(labels@, c as nat),
        decreases k - c,
    {
        let ghost before = out@;
        if buckets[c].len() > 0 {
            let mut group: Vec<usize> = Vec::new();
            core::mem::swap(&mut group, &mut buckets[c]);
            out.push(group);
            proof {
                assert(group_views(out@) =~= group_views(before).push(
                    members(labels@, c as usize),
                ));
            }
        }
        proof {
            lemma_indices_step(c as nat);
            indices(c as nat).lemma_filter_push(c, is_populated(labels@));
            assert(groups(labels@, (c + 1) as nat) =~= if members(labels@, c as usize).len() > 0 {
                groups(labels@, c as nat).push(members(labels@, c as usize))
            } else {
                groups(labels@, c as nat)
            });
        }
        c += 1;
    }
    proof {
        lemma_groups(labels@, k as nat);
    }
    Ok(out)
}

} // verus!
