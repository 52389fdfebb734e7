//! Finding the largest of a set of numbers by their keys.

use crate::error::FilterError;
use vstd::prelude::*;

verus! {

/// `at` is the first position that holds the largest key.
pub open spec fn is_first_largest(keys: Seq<u64>, at: int) -> bool {
    &&& 0 <= at < keys.len()
    &&& forall|i: int| 0 <= i < keys.len() ==> keys[i] <= keys[at]
    &&& forall|i: int| 0 <= i < at ==> keys[i] < keys[at]
}

/// The first position that holds the largest key of a sequence that is not
/// empty.
pub open spec fn first_largest(keys: Seq<u64>) -> int {
    choose|at: int| is_first_largest(keys, at)
}

/// There is one first position of the largest key, and no other.
pub proof fn lemma_first_largest_unique(keys: Seq<u64>, a: int, b: int)
    requires
        is_first_largest(keys, a),
        is_first_largest(keys, b),
    ensures
        a == b,
{
    if a < b {
        assert(keys[a] < keys[b]);
    } else if b < a {
        assert(keys[b] < keys[a]);
    }
}

/// Returns the first position of the largest key, and nothing for an empty
/// array.
pub fn index_of_largest(keys: &Vec<u64>) -> (r: Option<usize>)
    ensures
        match r {
            Some(at) => is_first_largest(keys@, at as int) && at == first_largest(keys@),
            None => keys@.len() == 0,
        },
{
    let n: usize = keys.len();
    if n == 0 {
        return None;
    }
    let mut best: usize = 0;
    let mut i: usize = 1;
    while i < n
        invariant
            n == keys.len(),
            1 <= i <= n,
            best < i,
            forall|t: int| 0 <= t < i ==> keys[t] <= keys[best as int],
            forall|t: int| 0 <= t < best ==> keys[t] < keys[best as int],
        decreases n - i,
    {
        if keys[i] > keys[best] {
            best = i;
        }
        i += 1;
    }
    proof {
        assert(is_first_largest(keys@, best as int));
        lemma_first_largest_unique(keys@, best as int, first_largest(keys@));
    }
    Some(best)
}

/// Column `i` of a table that is stored row by row.
pub open spec fn column(rows: Seq<Vec<u64>>, i: int) -> Seq<u64> {
    Seq::new(rows.len(), |o: int| rows[o]@[i])
}

/// Every row of the table has `width` entries.
pub open spec fn rows_have_width(rows: Seq<Vec<u64>>, width: nat) -> bool {
    forall|o: int| 0 <= o < rows.len() ==> (#[trigger] rows[o])@.len() == width
}

/// The first error, if any, that looking for the largest key of each of
/// `width` columns meets.
pub open spec fn columns_error(rows: Seq<Vec<u64>>, width: nat) -> Option<FilterError> {
    if rows.len() == 0 {
        Some(FilterError::NoObservations)
    } else if !rows_have_width(rows, width) {
        Some(FilterError::LengthMismatch)
    } else {
        None
    }
}

/// Finds, for each of `width` particles, the observation that fits it best.
///
/// `keys[o][i]` is the key of the likelihood of observation `o` for particle
/// `i`: a larger likelihood has a larger key. Entry `i` of the result is the
/// first observation whose key for particle `i` is largest.
pub fn best_observations(keys: &Vec<Vec<u64>>, width: usize) -> (r: Result<Vec<usize>, FilterError>)
    ensures
        match r {
            Ok(best) => {
                &&& columns_error(keys@, width as nat) is None
                &&& best@.len() == width
                &&& forall|i: int|
                    0 <= i < width ==> is_first_largest(
                        column(keys@, i),
                        #[trigger] best@[i] as int,
                    )
            },
            Err(e) => columns_error(keys@, width as nat) == Some(e),
        },
{
    let observations: usize = keys.len();
    if observations == 0 {
        return Err(FilterError::NoObservations);
    }
    let mut o: usize = 0;
    while o < observations
        invariant
            observations == keys.len(),
            o <= observations,
            forall|p: int| 0 <= p < o ==> (#[trigger] keys@[p])@.len() == width,
        decreases observations - o,
    {
        if keys[o].len() != width {
            return Err(FilterError::LengthMismatch);
        }
        o += 1;
    }
    let mut best: Vec<usize> = Vec::with_capacity(width);
    let mut i: usize = 0;
    while i < width
        invariant
            observations == keys.len(),
            observations > 0,
            rows_have_width(keys@, width as nat),
            i <= width,
            best.len() == i,
            forall|t: int|
                0 <= t < i ==> is_first_largest(column(keys@, t), #[trigger] best@[t] as int),
        decreases width - i,
    {
        let mut at: usize = 0;
        let mut o: usize = 1;
        while o < observations
            invariant
                observations == keys.len(),
                rows_have_width(keys@, width as nat),
                i < width,
                1 <= o <= observations,
                at < o,
                forall|p: int| 0 <= p < o ==> keys@[p]@[i as int] <= keys@[at as int]@[i as int],
                forall|p: int| 0 <= p < at ==> keys@[p]@[i as int] < keys@[at as int]@[i as int],
            decreases observations - o,
        {
            if keys[o][i] > keys[at][i] {
                at = o;
            }
            o += 1;
        }
        assert(is_first_largest(column(keys@, i as int), at as int));
        best.push(at);
        i += 1;
    }
    Ok(best)
}

} // verus!
