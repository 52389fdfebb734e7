use particle_filter::FilterError;

const ALL: [FilterError; 9] = [
    FilterError::NoParticles,
    FilterError::LengthMismatch,
    FilterError::TooManyClusters,
    FilterError::NoClusters,
    FilterError::LabelOutOfRange,
    FilterError::IndexOutOfRange,
    FilterError::DrawOutOfRange,
    FilterError::ZeroDivisor,
    FilterError::NoObservations,
];

#[test]
fn every_error_has_a_sentence_of_its_own() {
    for (i, a) in ALL.iter().enumerate() {
        assert!(!a.message().is_empty());
        for b in ALL.iter().skip(i + 1) {
            assert_ne!(a.message(), b.message());
        }
    }
}

#[test]
fn messages_say_what_was_wrong() {
    assert_eq!(
        FilterError::TooManyClusters.message(),
        "more clusters were asked for than there are particles"
    );
    assert_eq!(
        FilterError::NoParticles.message(),
        "a particle set must hold at least one particle"
    );
    assert_eq!(
        FilterError::DrawOutOfRange.message(),
        "a draw point lies at or above every cumulative weight left to it"
    );
}
