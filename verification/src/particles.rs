//! The particle set: per-particle arrays of equal length, mutated as a whole.

use crate::cluster::{group_by_label, group_views, grouping_error, groups, labels_below};
use crate::error::FilterError;
use crate::largest::{first_largest, index_of_largest};
use crate::reinject::{lemma_reinjected_len, overwrite_entries, reinject_error, reinjected};
use crate::systematic::{
    draws_below_total, gather, gathered, is_pick, is_selection, systematic_indices,
};
use vstd::prelude::*;

verus! {

/// A weighted cloud of particles in the plane.
///
/// Particle `i` is row `i` of each of the four arrays. `S` is the scalar type
/// of coordinates and weights.
#[derive(Debug)]
pub struct Particles<S> {
    positions: Vec<(S, S)>,
    velocities: Vec<(S, S)>,
    weights: Vec<S>,
    latest_groups: Vec<usize>,
    n: usize,
    search_space: S,
}

/// What a particle set holds, as mathematical sequences.
pub struct ParticlesView<S> {
    pub positions: Seq<(S, S)>,
    pub velocities: Seq<(S, S)>,
    pub weights: Seq<S>,
    pub latest_groups: Seq<usize>,
    pub search_space: S,
}

impl<S> ParticlesView<S> {
    /// The number of particles.
    pub open spec fn n(self) -> nat {
        self.positions.len()
    }

    /// There is at least one particle, and each array has one row for each.
    pub open spec fn wf(self) -> bool {
        &&& self.positions.len() >= 1
        &&& self.velocities.len() == self.positions.len()
        &&& self.weights.len() == self.positions.len()
        &&& self.latest_groups.len() == self.positions.len()
    }

    /// The set after each particle `i` was replaced by a copy of particle
    /// `ancestors[i]` and every weight was set to `uniform_weight`.
    pub open spec fn resampled(self, ancestors: Seq<usize>, uniform_weight: S) -> Self {
        ParticlesView {
            positions: gathered(self.positions, ancestors),
            velocities: gathered(self.velocities, ancestors),
            weights: repeated(uniform_weight, self.n()),
            ..self
        }
    }

    /// The set after the positions of the particles `targets` were
    /// overwritten by `fresh`, one after the other.
    pub open spec fn reinjected(self, targets: Seq<usize>, fresh: Seq<(S, S)>) -> Self {
        ParticlesView {
            positions: reinjected(self.positions, targets, fresh, targets.len()),
            ..self
        }
    }

    /// The set with `labels` as the cluster labels of its particles.
    pub open spec fn labelled(self, labels: Seq<usize>) -> Self {
        ParticlesView { latest_groups: labels, ..self }
    }

    /// What an estimate with `k` clusters and the assignment `labels` gives:
    /// the groups and the set as it is afterwards, or the error.
    pub open spec fn estimated(self, k: nat, labels: Seq<usize>) -> Result<
        (Seq<Seq<usize>>, Self),
        FilterError,
    > {
        match estimate_error(self.n(), k, labels) {
            Some(e) => Err(e),
            None => Ok((groups(labels, k), self.labelled(labels))),
        }
    }
}

impl<S> View for Particles<S> {
    type V = ParticlesView<S>;

    closed spec fn view(&self) -> ParticlesView<S> {
        ParticlesView {
            positions: self.positions@,
            velocities: self.velocities@,
            weights: self.weights@,
            latest_groups: self.latest_groups@,
            search_space: self.search_space,
        }
    }
}

impl<S> Particles<S> {
    #[verifier::type_invariant]
    spec fn inv(self) -> bool {
        &&& self@.wf()
        &&& self.n == self.positions@.len()
    }
}

/// `count` copies of `value`.
pub open spec fn repeated<T>(value: T, count: nat) -> Seq<T> {
    Seq::new(count, |i: int| value)
}

fn filled<T: Copy>(value: T, count: usize) -> (out: Vec<T>)
    ensures
        out@ == repeated(value, count as nat),
{
    let mut out: Vec<T> = Vec::with_capacity(count);
    let mut i: usize = 0;
    while i < count
        invariant
            i <= count,
            out.len() == i,
            forall|t: int| 0 <= t < i ==> out[t] == value,
        decreases count - i,
    {
        out.push(value);
        i += 1;
    }
    assert(out@ =~= repeated(value, count as nat));
    out
}

impl<S: Copy> Particles<S> {
    /// Makes a particle set of `positions.len()` particles, each with the
    /// weight `uniform_weight` and the cluster label 0.
    ///
    /// `search_space` is the half-width of the square that the positions were
    /// drawn from, kept for later reinjection.
    pub fn new(
        positions: Vec<(S, S)>,
        velocities: Vec<(S, S)>,
        uniform_weight: S,
        search_space: S,
    ) -> (r: Result<Self, FilterError>)
        ensures
            match r {
                Ok(p) => {
                    &&& p@.wf()
                    &&& p@.positions == positions@
                    &&& p@.velocities == velocities@
                    &&& p@.weights == repeated(uniform_weight, positions@.len())
                    &&& p@.latest_groups == repeated(0usize, positions@.len())
                    &&& p@.search_space == search_space
                },
                Err(e) => if positions@.len() == 0 {
                    e == FilterError::NoParticles
                } else {
                    e == FilterError::LengthMismatch && velocities@.len() != positions@.len()
                },
            },
            positions@.len() >= 1 && velocities@.len() == positions@.len() ==> r is Ok,
    {
        let n: usize = positions.len();
        if n == 0 {
            return Err(FilterError::NoParticles);
        }
        if velocities.len() != n {
            return Err(FilterError::LengthMismatch);
        }
        let weights = filled(uniform_weight, n);
        let latest_groups = filled(0usize, n);
        Ok(Particles { positions, velocities, weights, latest_groups, n, search_space })
    }

    /// The number of particles, fixed for the lifetime of the set.
    pub fn n(&self) -> (n: usize)
        ensures
            n == self@.n(),
            n >= 1,
            self@.wf(),
    {
        proof {
            use_type_invariant(self);
        }
        self.n
    }

    /// The half-width of the square that exploratory particles are drawn from.
    pub fn search_space(&self) -> (s: S)
        ensures
            s == self@.search_space,
    {
        self.search_space
    }

    /// The position of each particle.
    pub fn positions(&self) -> (r: &Vec<(S, S)>)
        ensures
            r@ == self@.positions,
            self@.wf(),
    {
        proof {
            use_type_invariant(self);
        }
        &self.positions
    }

    /// The velocity of each particle.
    pub fn velocities(&self) -> (r: &Vec<(S, S)>)
        ensures
            r@ == self@.velocities,
            self@.wf(),
    {
        proof {
            use_type_invariant(self);
        }
        &self.velocities
    }

    /// The weight of each particle.
    pub fn weights(&self) -> (r: &Vec<S>)
        ensures
            r@ == self@.weights,
            self@.wf(),
    {
        proof {
            use_type_invariant(self);
        }
        &self.weights
    }

    /// The cluster label that the latest estimate gave each particle; all
    /// zero before the first estimate.
    pub fn latest_groups(&self) -> (r: &Vec<usize>)
        ensures
            r@ == self@.latest_groups,
            self@.wf(),
    {
        proof {
            use_type_invariant(self);
        }
        &self.latest_groups
    }

    /// Replaces the positions of all particles at once.
    pub fn set_positions(&mut self, positions: Vec<(S, S)>) -> (r: Result<(), FilterError>)
        ensures
            final(self)@.wf(),
            match r {
                Ok(_) => positions@.len() == old(self)@.n() && final(self)@ == (ParticlesView {
                    positions: positions@,
                    ..old(self)@
                }),
                Err(e) => e == FilterError::LengthMismatch && positions@.len() != old(self)@.n()
                    && final(self)@ == old(self)@,
            },
    {
        proof {
            use_type_invariant(&*self);
        }
        if positions.len() != self.n {
            return Err(FilterError::LengthMismatch);
        }
        self.positions = positions;
        Ok(())
    }

    /// Replaces the velocities of all particles at once.
    pub fn set_velocities(&mut self, velocities: Vec<(S, S)>) -> (r: Result<(), FilterError>)
        ensures
            final(self)@.wf(),
            match r {
                Ok(_) => velocities@.len() == old(self)@.n() && final(self)@ == (ParticlesView {
                    velocities: velocities@,
                    ..old(self)@
                }),
                Err(e) => e == FilterError::LengthMismatch && velocities@.len() != old(self)@.n()
                    && final(self)@ == old(self)@,
            },
    {
        proof {
            use_type_invariant(&*self);
        }
        if velocities.len() != self.n {
            return Err(FilterError::LengthMismatch);
        }
        self.velocities = velocities;
        Ok(())
    }

    /// Replaces the weights of all particles at once.
    pub fn set_weights(&mut self, weights: Vec<S>) -> (r: Result<(), FilterError>)
        ensures
            final(self)@.wf(),
            match r {
                Ok(_) => weights@.len() == old(self)@.n() && final(self)@ == (ParticlesView {
                    weights: weights@,
                    ..old(self)@
                }),
                Err(e) => e == FilterError::LengthMismatch && weights@.len() != old(self)@.n()
                    && final(self)@ == old(self)@,
            },
    {
        proof {
            use_type_invariant(&*self);
        }
        if weights.len() != self.n {
            return Err(FilterError::LengthMismatch);
        }
        self.weights = weights;
        Ok(())
    }
}

/// The first error, if any, that resampling `n` particles with these draws
/// and cumulative weights meets.
pub open spec fn resample_error(n: nat, draws: Seq<u64>, cumulative: Seq<u64>) -> Option<
    FilterError,
> {
    if draws.len() != n || cumulative.len() != n {
        Some(FilterError::LengthMismatch)
    } else if forall|p: Seq<usize>| !is_selection(cumulative, draws, p) {
        Some(FilterError::DrawOutOfRange)
    } else {
        None
    }
}

/// The first error, if any, that asking for `k` clusters of `n` particles
/// meets.
pub open spec fn cluster_count_error(n: nat, k: nat) -> Option<FilterError> {
    if k == 0 {
        Some(FilterError::NoClusters)
    } else if k > n {
        Some(FilterError::TooManyClusters)
    } else {
        None
    }
}

/// The first error, if any, that taking `labels` as the assignment of `n`
/// particles to `k` clusters meets.
pub open spec fn estimate_error(n: nat, k: nat, labels: Seq<usize>) -> Option<FilterError> {
    if cluster_count_error(n, k) is Some {
        cluster_count_error(n, k)
    } else if labels.len() != n {
        Some(FilterError::LengthMismatch)
    } else {
        grouping_error(labels, k)
    }
}

impl<S: Copy> Particles<S> {
    /// The coordinates of largest magnitude, one for each axis.
    ///
    /// `x_keys[i]` and `y_keys[i]` are keys of the magnitudes of the two
    /// coordinates of particle `i`: a larger magnitude has a larger key. The
    /// result holds, for each axis, the coordinate of the first particle whose
    /// key is largest, as it is stored.
    pub fn upper_bounds(&self, x_keys: &Vec<u64>, y_keys: &Vec<u64>) -> (r: Result<
        (S, S),
        FilterError,
    >)
        ensures
            match r {
                Ok((x, y)) => {
                    &&& x_keys@.len() == self@.n()
                    &&& y_keys@.len() == self@.n()
                    &&& x == self@.positions[first_largest(x_keys@)].0
                    &&& y == self@.positions[first_largest(y_keys@)].1
                },
                Err(e) => e == FilterError::LengthMismatch && (x_keys@.len() != self@.n()
                    || y_keys@.len() != self@.n()),
            },
    {
        proof {
            use_type_invariant(self);
        }
        if x_keys.len() != self.n || y_keys.len() != self.n {
            return Err(FilterError::LengthMismatch);
        }
        match (index_of_largest(x_keys), index_of_largest(y_keys)) {
            (Some(ix), Some(iy)) => Ok((self.positions[ix].0, self.positions[iy].1)),
            _ => Err(FilterError::LengthMismatch),
        }
    }

    /// Redraws the population: particle `i` becomes a copy of its ancestor,
    /// the particle that systematic selection assigns to draw `i`, and every
    /// weight becomes `uniform_weight`. Returns the ancestors.
    ///
    /// `cumulative[j]` is the key of the summed weight of particles `0..=j`
    /// and `draws[i]` the key of draw point `i`. Positions and velocities are
    /// gathered into fresh arrays; cluster labels stay as they are.
    pub fn resample(&mut self, draws: &Vec<u64>, cumulative: &Vec<u64>, uniform_weight: S) -> (r:
        Result<Vec<usize>, FilterError>)
        ensures
            final(self)@.wf(),
            match r {
                Ok(ancestors) => {
                    &&& resample_error(old(self)@.n(), draws@, cumulative@) is None
                    &&& is_selection(cumulative@, draws@, ancestors@)
                    &&& final(self)@ == old(self)@.resampled(ancestors@, uniform_weight)
                },
                Err(e) => resample_error(old(self)@.n(), draws@, cumulative@) == Some(e)
                    && final(self)@ == old(self)@,
            },
            draws@.len() == old(self)@.n() && cumulative@.len() == old(self)@.n()
                && draws_below_total(cumulative@, draws@) ==> r is Ok,
    {
        proof {
            use_type_invariant(&*self);
        }
        if draws.len() != self.n || cumulative.len() != self.n {
            return Err(FilterError::LengthMismatch);
        }
        let ancestors = match systematic_indices(draws, cumulative) {
            Ok(picks) => picks,
            Err(e) => {
                return Err(e);
            },
        };
        proof {
            assert forall|i: int| 0 <= i < ancestors@.len() implies ancestors@[i]
                < self.n by {
                assert(is_pick(cumulative@, draws@, ancestors@, i));
            }
        }
        let positions = match gather(&self.positions, &ancestors) {
            Ok(rows) => rows,
            Err(e) => {
                return Err(e);
            },
        };
        let velocities = match gather(&self.velocities, &ancestors) {
            Ok(rows) => rows,
            Err(e) => {
                return Err(e);
            },
        };
        let weights = filled(uniform_weight, self.n);
        self.positions = positions;
        self.velocities = velocities;
        self.weights = weights;
        Ok(ancestors)
    }

    /// Overwrites the position of particle `targets[t]` by `fresh[t]`, for
    /// each `t` in turn.
    pub fn reinject(&mut self, targets: &Vec<usize>, fresh: &Vec<(S, S)>) -> (r: Result<
        (),
        FilterError,
    >)
        ensures
            final(self)@.wf(),
            match r {
                Ok(_) => {
                    &&& reinject_error(old(self)@.n(), targets@, fresh@) is None
                    &&& final(self)@ == old(self)@.reinjected(targets@, fresh@)
                },
                Err(e) => reinject_error(old(self)@.n(), targets@, fresh@) == Some(e)
                    && final(self)@ == old(self)@,
            },
    {
        proof {
            use_type_invariant(&*self);
        }
        let positions = match overwrite_entries(&self.positions, targets, fresh) {
            Ok(rows) => rows,
            Err(e) => {
                return Err(e);
            },
        };
        proof {
            lemma_reinjected_len(self.positions@, targets@, fresh@, targets@.len());
        }
        self.positions = positions;
        Ok(())
    }

    /// Tells whether the particles can be partitioned into `k` clusters: `k`
    /// is at least one and at most the number of particles.
    pub fn check_cluster_count(&self, k: usize) -> (r: Result<(), FilterError>)
        ensures
            match r {
                Ok(_) => cluster_count_error(self@.n(), k as nat) is None,
                Err(e) => cluster_count_error(self@.n(), k as nat) == Some(e),
            },
    {
        proof {
            use_type_invariant(self);
        }
        if k == 0 {
            Err(FilterError::NoClusters)
        } else if k > self.n {
            Err(FilterError::TooManyClusters)
        } else {
            Ok(())
        }
    }

    /// Takes `labels` as the latest assignment of the particles to `k`
    /// clusters and returns the particles of each populated cluster.
    ///
    /// The groups come in ascending order of their label, and so do the
    /// particles within a group; a cluster without particles has no group.
    pub fn estimate(&mut self, k: usize, labels: Vec<usize>) -> (r: Result<
        Vec<Vec<usize>>,
        FilterError,
    >)
        ensures
            final(self)@.wf(),
            match r {
                Ok(out) => {
                    &&& old(self)@.estimated(k as nat, labels@) == Ok::<_, FilterError>(
                        (group_views(out@), final(self)@),
                    )
                    &&& out@.len() <= k
                    &&& labels_below(final(self)@.latest_groups, k as nat)
                },
                Err(e) => old(self)@.estimated(k as nat, labels@) == Err::<
                    (Seq<Seq<usize>>, ParticlesView<S>),
                    _,
                >(e) && final(self)@ == old(self)@,
            },
    {
        proof {
            use_type_invariant(&*self);
        }
        if k == 0 {
            return Err(FilterError::NoClusters);
        }
        if k > self.n {
            return Err(FilterError::TooManyClusters);
        }
        if labels.len() != self.n {
            return Err(FilterError::LengthMismatch);
        }
        let out = match group_by_label(&labels, k) {
            Ok(out) => out,
            Err(e) => {
                return Err(e);
            },
        };
        self.latest_groups = labels;
        Ok(out)
    }
}

/// Resampling keeps the number of particles, makes each particle a copy of
/// its ancestor, and leaves every particle with the same weight: the one that
/// was handed in.
pub proof fn lemma_resampled<S>(
    before: ParticlesView<S>,
    draws: Seq<u64>,
    cumulative: Seq<u64>,
    ancestors: Seq<usize>,
    uniform_weight: S,
)
    requires
        before.wf(),
        resample_error(before.n(), draws, cumulative) is None,
        is_selection(cumulative, draws, ancestors),
    ensures
        before.resampled(ancestors, uniform_weight).wf(),
        before.resampled(ancestors, uniform_weight).n() == before.n(),
        forall|i: int|
            0 <= i < before.n() ==> {
                &&& (#[trigger] ancestors[i]) < before.n()
                &&& before.resampled(ancestors, uniform_weight).positions[i]
                    == before.positions[ancestors[i] as int]
                &&& before.resampled(ancestors, uniform_weight).velocities[i]
                    == before.velocities[ancestors[i] as int]
                &&& before.resampled(ancestors, uniform_weight).weights[i] == uniform_weight
            },
{
    assert forall|i: int| 0 <= i < before.n() implies (#[trigger] ancestors[i]) < before.n() by {
        assert(is_pick(cumulative, draws, ancestors, i));
    }
}

/// An estimate that is repeated with the same number of clusters and the
/// same labels, with nothing done to the set in between, gives the same
/// groups and leaves the set as the first one left it.
pub proof fn lemma_estimate_idempotent<S>(
    before: ParticlesView<S>,
    k: nat,
    labels: Seq<usize>,
    first: Seq<Seq<usize>>,
    after: ParticlesView<S>,
)
    requires
        before.wf(),
        before.estimated(k, labels) == Ok::<_, FilterError>((first, after)),
    ensures
        after.wf(),
        after.estimated(k, labels) == Ok::<_, FilterError>((first, after)),
{
}

} // verus!
