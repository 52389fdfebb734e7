use vstd::prelude::*;

verus! {

/// Why an operation on a particle set was refused. A refused operation leaves
/// the particle set as it was.
#[derive(Clone, Copy, Debug, PartialEq, Eq, Structural)]
pub enum FilterError {
    /// A particle set must hold at least one particle.
    NoParticles,
    /// A per-particle array does not have one entry per particle.
    LengthMismatch,
    /// More clusters were asked for than there are particles.
    TooManyClusters,
    /// Zero clusters were asked for.
    NoClusters,
    /// A cluster label is not below the number of clusters.
    LabelOutOfRange,
    /// An index does not name an entry of the array it is used on.
    IndexOutOfRange,
    /// A draw point lies at or above every cumulative weight left to it, so
    /// that no ancestor can be assigned to it.
    DrawOutOfRange,
    /// A divisor of the particle count is zero.
    ZeroDivisor,
    /// There is no observation to choose among.
    NoObservations,
}

impl FilterError {
    /// The sentence that `message` returns for this error.
    pub open spec fn message_text(self) -> Seq<char> {
        match self {
            FilterError::NoParticles => "a particle set must hold at least one particle"@,
            FilterError::LengthMismatch => "an array does not have one entry for each particle"@,
            FilterError::TooManyClusters => {
                "more clusters were asked for than there are particles"@
            },
            FilterError::NoClusters => "at least one cluster must be asked for"@,
            FilterError::LabelOutOfRange => "a cluster label is not below the number of clusters"@,
            FilterError::IndexOutOfRange => "an index names no entry of the array"@,
            FilterError::DrawOutOfRange => {
                "a draw point lies at or above every cumulative weight left to it"@
            },
            FilterError::ZeroDivisor => "the divisor of the particle count is zero"@,
            FilterError::NoObservations => "there is no observation to choose among"@,
        }
    }

    /// Says in a sentence what was wrong.
    pub fn message(&self) -> (r: &'static str)
        ensures
            r@ == self.message_text(),
    {
        match self {
            FilterError::NoParticles => "a particle set must hold at least one particle",
            FilterError::LengthMismatch => "an array does not have one entry for each particle",
            FilterError::TooManyClusters => "more clusters were asked for than there are particles",
            FilterError::NoClusters => "at least one cluster must be asked for",
            FilterError::LabelOutOfRange => "a cluster label is not below the number of clusters",
            FilterError::IndexOutOfRange => "an index names no entry of the array",
            FilterError::DrawOutOfRange => {
                "a draw point lies at or above every cumulative weight left to it"
            },
            FilterError::ZeroDivisor => "the divisor of the particle count is zero",
            FilterError::NoObservations => "there is no observation to choose among",
        }
    }
}

} // verus!
