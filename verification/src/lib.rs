//! Particle swarm optimisation: the decisions of the swarm, proved.
//!
//! Floating-point arithmetic stays with the caller; this crate holds what the
//! swarm decides from it: which particle is best, how neighbourhoods wrap
//! round the ring, when a configuration is refused, what the evaluation cache
//! keeps and evicts, and when a run has spent its budget.

pub mod best;
pub mod bounds;
pub mod budget;
pub mod cache;
pub mod config;
pub mod layout;
pub mod neighborhood;
pub mod order_key;
pub mod rng;

pub use bounds::{place_in_bounds, Placement};
pub use best::{argmin_f, best_improvement, personal_best_updates};
pub use budget::EvaluationBudget;
pub use cache::{CacheKind, ObjectiveCache};
pub use config::{assert_config, ConfigCheck};
pub use neighborhood::{create_neighborhoods, local_best, NeighborhoodType, Neighborhoods};
pub use layout::{bound_indices, flat_dimension, last_dimension, reshape};
pub use order_key::OrderKey;
pub use rng::swarm_rng;

use vstd::prelude::*;

verus! {

/// Error from configuration checks or a NaN update.
#[derive(Debug, Clone, PartialEq, Eq)]
pub enum PsoError {
    InvalidConfig(&'static str),
    NanCoefficient,
}

impl PsoError {
    /// The message shown for the error.
    pub fn message(&self) -> (m: &'static str)
        ensures
            self matches PsoError::InvalidConfig(s) ==> m == s,
            *self == PsoError::NanCoefficient ==> m@ == "a particle coefficient became NaN"@,
    {
        match self {
            PsoError::InvalidConfig(msg) => msg,
            PsoError::NanCoefficient => "a particle coefficient became NaN",
        }
    }
}

} // verus!
