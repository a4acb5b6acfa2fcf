use crate::system::{NodeExterior, Reducer};
use vstd::prelude::*;

verus! {

/// The seconds since the epoch, while enabled.
pub struct Time;

impl NodeExterior for Time {
    fn title() -> (r: &'static str)
        ensures
            r@ == "Time"@,
    {
        "Time"
    }

    fn group_name() -> (r: &'static str)
        ensures
            r@ == "Functions"@,
    {
        "Functions"
    }
}

impl Reducer for Time {
    fn param_name() -> (r: &'static str)
        ensures
            r@ == "enabled"@,
    {
        "enabled"
    }

    fn result_name() -> (r: &'static str)
        ensures
            r@ == "seconds from epoch"@,
    {
        "seconds from epoch"
    }
}

} // verus!
