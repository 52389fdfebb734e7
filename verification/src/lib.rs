//! The combinatorial core of a sequential importance resampling particle
//! filter over planar states: the particle set and its invariants, systematic
//! ancestor selection, reinjection of exploratory particles, and the grouping
//! of particles by cluster label.
//!
//! The scalar type of positions, velocities and weights is a parameter. The
//! library moves scalars and never computes with them. Where it has to order
//! them it is handed keys: unsigned integers that are ordered as the scalars
//! they stand for.

pub mod cluster;
pub mod error;
pub mod largest;
pub mod particles;
pub mod proportion;
pub mod reinject;
pub mod systematic;

pub use cluster::group_by_label;
pub use error::FilterError;
pub use largest::{best_observations, index_of_largest};
pub use particles::Particles;
pub use reinject::{overwrite_entries, reinjection_targets, Reinjection};
pub use systematic::{gather, systematic_indices};
