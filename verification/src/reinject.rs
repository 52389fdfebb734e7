//! Choosing which particles are replaced by fresh exploratory ones.

use crate::error::FilterError;
use crate::systematic::indices_within;
use ndarray_rand::rand::rngs::StdRng;
use ndarray_rand::rand::Rng;
use vstd::prelude::*;

verus! {

/// The random stream of `rand`, carried through as an opaque value.
#[verifier::external_type_specification]
#[verifier::external_body]
pub struct ExStdRng(ndarray_rand::rand::rngs::StdRng);

/// How many particles a resampling step replaces by fresh exploratory ones.
#[derive(Clone, Copy, Debug, PartialEq, Eq, Structural)]
pub enum Reinjection {
    /// Exactly the particle count divided by `divisor`, rounded down.
    Fixed { divisor: usize },
    /// A number drawn anew each time, below the particle count divided by
    /// `divisor`, rounded down; none where that quotient is zero.
    Below { divisor: usize },
}

impl Reinjection {
    /// The divisor of the particle count.
    pub open spec fn divisor(self) -> usize {
        match self {
            Reinjection::Fixed { divisor } => divisor,
            Reinjection::Below { divisor } => divisor,
        }
    }

    /// Tells whether `count` particles may be replaced among `n` under this
    /// policy.
    pub open spec fn admits(self, n: nat, count: nat) -> bool {
        match self {
            Reinjection::Fixed { divisor } => count == n / (divisor as nat),
            Reinjection::Below { divisor } => if n / (divisor as nat) == 0 {
                count == 0
            } else {
                count < n / (divisor as nat)
            },
        }
    }
}

/// `Rng::gen_range` of `rand` on the half-open range `0..bound`. The range
/// must not be empty, and the number drawn lies in it; which number it is
/// depends on the stream.
#[verifier::external_body]
fn draw_below(rng: &mut StdRng, bound: usize) -> (r: usize)
    requires
        bound > 0,
    ensures
        r < bound,
{
    rng.gen_range(0..bound)
}

/// Draws the particles that are to be replaced: as many as `policy` admits
/// among `n`, each picked independently among all `n`, so that one particle
/// may be picked more than once.
pub fn reinjection_targets(rng: &mut StdRng, n: usize, policy: Reinjection) -> (r: Result<
    Vec<usize>,
    FilterError,
>)
    ensures
        match r {
            Ok(targets) => {
                &&& policy.divisor() != 0
                &&& policy.admits(n as nat, targets@.len())
                &&& forall|t: int| 0 <= t < targets@.len() ==> targets@[t] < n
            },
            Err(e) => e == FilterError::ZeroDivisor && policy.divisor() == 0,
        },
{
    let count: usize = match policy {
        Reinjection::Fixed { divisor } => {
            if divisor == 0 {
                return Err(FilterError::ZeroDivisor);
            }
            n / divisor
        },
        Reinjection::Below { divisor } => {
            if divisor == 0 {
                return Err(FilterError::ZeroDivisor);
            }
            let limit: usize = n / divisor;
            if limit == 0 {
                0
            } else {
                draw_below(rng, limit)
            }
        },
    };
    assert(count > 0 ==> n > 0) by {
        if n == 0 {
            assert(0usize / policy.divisor() == 0);
        }
    }
    let mut targets: Vec<usize> = Vec::new();
    let mut t: usize = 0;
    while t < count
        invariant
            t <= count,
            count > 0 ==> n > 0,
            targets.len() == t,
            forall|s: int| 0 <= s < t ==> targets@[s] < n,
        decreases count - t,
    {
        let target: usize = draw_below(rng, n);
        targets.push(target);
        t += 1;
    }
    Ok(targets)
}

/// The array after entry `targets[t]` was overwritten by `fresh[t]`, for each
/// `t` below `count` in ascending order; of two writes to one entry the later
/// one stays.
pub open spec fn reinjected<T>(
    entries: Seq<T>,
    targets: Seq<usize>,
    fresh: Seq<T>,
    count: nat,
) -> Seq<T>
    decreases count,
{
    if count == 0 {
        entries
    } else {
        reinjected(entries, targets, fresh, (count - 1) as nat).update(
            targets[count - 1] as int,
            fresh[count - 1],
        )
    }
}

/// The first error, if any, that overwriting the entries `targets` of an
/// array of `n` entries by `fresh` meets.
pub open spec fn reinject_error<T>(n: nat, targets: Seq<usize>, fresh: Seq<T>) -> Option<
    FilterError,
> {
    if targets.len() != fresh.len() {
        Some(FilterError::LengthMismatch)
    } else if !indices_within(targets, n) {
        Some(FilterError::IndexOutOfRange)
    } else {
        None
    }
}

/// Overwriting entries that exist keeps the length of the array.
pub proof fn lemma_reinjected_len<T>(
    entries: Seq<T>,
    targets: Seq<usize>,
    fresh: Seq<T>,
    count: nat,
)
    requires
        count <= targets.len(),
        indices_within(targets, entries.len()),
    ensures
        reinjected(entries, targets, fresh, count).len() == entries.len(),
    decreases count,
{
    if count > 0 {
        lemma_reinjected_len(entries, targets, fresh, (count - 1) as nat);
    }
}

/// An entry that no write names keeps its value.
pub proof fn lemma_reinjected_untouched<T>(
    entries: Seq<T>,
    targets: Seq<usize>,
    fresh: Seq<T>,
    count: nat,
    i: int,
)
    requires
        count <= targets.len(),
        indices_within(targets, entries.len()),
        0 <= i < entries.len(),
        forall|t: int| 0 <= t < count ==> targets[t] != i,
    ensures
        reinjected(entries, targets, fresh, count)[i] == entries[i],
    decreases count,
{
    if count > 0 {
        lemma_reinjected_untouched(entries, targets, fresh, (count - 1) as nat, i);
        lemma_reinjected_len(entries, targets, fresh, (count - 1) as nat);
    }
}

/// An entry that is written holds what the last write to it brought.
pub proof fn lemma_reinjected_last_write<T>(
    entries: Seq<T>,
    targets: Seq<usize>,
    fresh: Seq<T>,
    count: nat,
    t: int,
)
    requires
        count <= targets.len(),
        indices_within(targets, entries.len()),
        0 <= t < count,
        forall|s: int| t < s < count ==> targets[s] != targets[t],
    ensures
        reinjected(entries, targets, fresh, count)[targets[t] as int] == fresh[t],
    decreases count,
{
    lemma_reinjected_len(entries, targets, fresh, (count - 1) as nat);
    if t < count - 1 {
        lemma_reinjected_last_write(entries, targets, fresh, (count - 1) as nat, t);
    }
}

/// Builds a copy of `entries` in which entry `targets[t]` is overwritten by
/// `fresh[t]`, for each `t` in turn.
pub fn overwrite_entries<T: Copy>(entries: &Vec<T>, targets: &Vec<usize>, fresh: &Vec<T>) -> (r:
    Result<Vec<T>, FilterError>)
    ensures
        match r {
            Ok(out) => reinject_error(entries@.len(), targets@, fresh@) is None && out@
                == reinjected(entries@, targets@, fresh@, targets@.len()),
            Err(e) => reinject_error(entries@.len(), targets@, fresh@) == Some(e),
        },
{
    let n: usize = entries.len();
    let count: usize = targets.len();
    if fresh.len() != count {
        return Err(FilterError::LengthMismatch);
    }
    let mut out: Vec<T> = Vec::with_capacity(n);
    let mut i: usize = 0;
    while i < n
        invariant
            n == entries.len(),
            i <= n,
            out.len() == i,
            forall|s: int| 0 <= s < i ==> out[s] == entries[s],
        decreases n - i,
    {
        out.push(entries[i]);
        i += 1;
    }
    assert(out@ =~= entries@);
    let mut t: usize = 0;
    while t < count
        invariant
            n == entries.len(),
            count == targets.len(),
            count == fresh.len(),
            t <= count,
            out.len() == n,
            forall|s: int| 0 <= s < t ==> targets@[s] < n,
            out@ == reinjected(entries@, targets@, fresh@, t as nat),
        decreases count - t,
    {
        let target: usize = targets[t];
        if target >= n {
            assert(!indices_within(targets@, n as nat));
            return Err(FilterError::IndexOutOfRange);
        }
        out.set(target, fresh[t]);
        t += 1;
    }
    Ok(out)
}

} // verus!
