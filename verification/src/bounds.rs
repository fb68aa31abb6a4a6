use vstd::prelude::*;

use crate::order_key::OrderKey;

verus! {

/// Where a moved coordinate falls relative to the bound of its axis.
#[derive(Clone, Copy, Debug, PartialEq, Eq, Structural)]
pub enum Placement {
    /// Above the upper end: the coordinate is set to the upper end and its
    /// velocity to zero.
    AboveUpper,
    /// Below the lower end: the coordinate is set to the lower end and its
    /// velocity to zero.
    BelowLower,
    /// Within the bound: the coordinate keeps its value.
    Inside,
}

/// Where `x` falls relative to `[lower, upper]`; the upper end is tested first.
pub fn place_in_bounds(x: OrderKey, lower: OrderKey, upper: OrderKey) -> (p: Placement)
    ensures
        p == Placement::AboveUpper <==> upper.less(x),
        p == Placement::BelowLower <==> !upper.less(x) && x.less(lower),
        p == Placement::Inside <==> !upper.less(x) && !x.less(lower),
{
    if upper.lt(&x) {
        Placement::AboveUpper
    } else if x.lt(&lower) {
        Placement::BelowLower
    } else {
        Placement::Inside
    }
}

} // verus!
