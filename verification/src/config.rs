use vstd::prelude::*;

use crate::order_key::{key_of_bits, OrderKey};
use crate::PsoError;

verus! {

/// The bits of the double 4.0.
pub const FOUR_BITS: u64 = 0x4010_0000_0000_0000;

/// What a configuration check reads of a configuration: the shape of the
/// problem as integers, and the sum of the acceleration coefficients and each
/// bound as comparison keys.
pub struct ConfigCheck {
    /// The key of `c1 + c2`.
    pub coefficient_sum: OrderKey,
    pub dimensions: Vec<usize>,
    pub population_size: usize,
    /// The keys of each bound's lower and upper end.
    pub bounds: Vec<(OrderKey, OrderKey)>,
}

/// Whether some bound does not have a strictly lower start than end (a NaN
/// end included).
pub open spec fn has_inverted_bound(bounds: Seq<(OrderKey, OrderKey)>) -> bool {
    exists|i: int| 0 <= i < bounds.len() && !(#[trigger] bounds[i]).0.less(bounds[i].1)
}

/// Whether `c1 + c2` is at least 4 (false for a NaN sum).
pub open spec fn coefficients_suffice(sum: OrderKey) -> bool {
    sum.at_least(key_of_bits(FOUR_BITS))
}

/// The verdict on a configuration: the first rule it breaks, in the order the
/// rules are checked, or `Ok` when it breaks none.
pub open spec fn config_verdict(c: ConfigCheck) -> Result<(), PsoError> {
    if !coefficients_suffice(c.coefficient_sum) {
        Err(PsoError::InvalidConfig("c1 + c2 must be at least 4"))
    } else if c.dimensions@.len() == 0 {
        Err(PsoError::InvalidConfig("dimensions must be set"))
    } else if c.population_size == 0 {
        Err(PsoError::InvalidConfig("population_size must be at least 1"))
    } else if c.bounds@.len() == 0 {
        Err(PsoError::InvalidConfig("bounds must be set"))
    } else if has_inverted_bound(c.bounds@) {
        Err(PsoError::InvalidConfig("each bound must have a strictly lower start than end"))
    } else if c.bounds@.len() != c.dimensions@.last() {
        Err(
            PsoError::InvalidConfig(
                "bounds vector must have the same length as the last dimension of the model",
            ),
        )
    } else {
        Ok(())
    }
}

/// Checks a configuration before a swarm is built from it.
pub fn assert_config(config: &ConfigCheck) -> (r: Result<(), PsoError>)
    ensures
        r == config_verdict(*config),
{
    let four = OrderKey::from_bits(FOUR_BITS);
    if !config.coefficient_sum.ge(&four) {
        return Err(PsoError::InvalidConfig("c1 + c2 must be at least 4"));
    }
    if config.dimensions.len() == 0 {
        return Err(PsoError::InvalidConfig("dimensions must be set"));
    }
    if config.population_size == 0 {
        return Err(PsoError::InvalidConfig("population_size must be at least 1"));
    }
    if config.bounds.len() == 0 {
        return Err(PsoError::InvalidConfig("bounds must be set"));
    }
    let mut i: usize = 0;
    while i < config.bounds.len()
        invariant
            i <= config.bounds@.len(),
            coefficients_suffice(config.coefficient_sum),
            config.dimensions@.len() > 0,
            config.population_size > 0,
            config.bounds@.len() > 0,
            forall|j: int| 0 <= j < i ==> (#[trigger] config.bounds@[j]).0.less(config.bounds@[j].1),
        decreases config.bounds@.len() - i,
    {
        let (lo, hi) = config.bounds[i];
        if !lo.lt(&hi) {
            assert(!config.bounds@[i as int].0.less(config.bounds@[i as int].1));
            return Err(
                PsoError::InvalidConfig("each bound must have a strictly lower start than end"),
            );
        }
        i = i + 1;
    }
    let last_dim = config.dimensions[config.dimensions.len() - 1];
    if config.bounds.len() != last_dim {
        return Err(
            PsoError::InvalidConfig(
                "bounds vector must have the same length as the last dimension of the model",
            ),
        );
    }
    Ok(())
}

/// A configuration is accepted exactly when the coefficients sum to at least
/// 4, the shape has dimensions and particles, every bound has a strictly
/// lower start than end, and there is one bound per coordinate of the LAST
/// dimension, whatever the other dimensions are.
pub proof fn lemma_config_accepted_exactly_when_valid(c: ConfigCheck)
    ensures
        config_verdict(c) is Ok <==> {
            &&& c.coefficient_sum.at_least(key_of_bits(FOUR_BITS))
            &&& c.dimensions@.len() > 0
            &&& c.population_size > 0
            &&& c.bounds@.len() > 0
            &&& forall|i: int| 0 <= i < c.bounds@.len() ==> (#[trigger] c.bounds@[i]).0.less(c.bounds@[i].1)
            &&& c.bounds@.len() == c.dimensions@[c.dimensions@.len() - 1]
        },
{
    if !has_inverted_bound(c.bounds@) {
        assert forall|i: int| 0 <= i < c.bounds@.len() implies (#[trigger] c.bounds@[i]).0.less(
            c.bounds@[i].1,
        ) by {}
    }
}

} // verus!
