use crate::system::{NodeExterior, Reducer};
use vstd::prelude::*;

verus! {

/// The sine of its input.
pub struct Sine;

impl NodeExterior for Sine {
    fn title() -> (r: &'static str)
        ensures
            r@ == "Sine"@,
    {
        "Sine"
    }

    fn group_name() -> (r: &'static str)
        ensures
            r@ == "Functions"@,
    {
        "Functions"
    }
}

impl Reducer for Sine {
    fn param_name() -> (r: &'static str)
        ensures
            r@ == "input"@,
    {
        "input"
    }

    fn result_name() -> (r: &'static str)
        ensures
            r@ == "sin(input)"@,
    {
        "sin(input)"
    }
}

} // verus!
