use crate::system::{NodeExterior, Reducer};
use vstd::prelude::*;

verus! {

/// Lists a directory: reduces a file path to the files in it.
pub struct ListDirectory;

impl NodeExterior for ListDirectory {
    fn title() -> (r: &'static str)
        ensures
            r@ == "List Directory"@,
    {
        "List Directory"
    }

    fn group_name() -> (r: &'static str)
        ensures
            r@ == "Filesystem"@,
    {
        "Filesystem"
    }
}

impl Reducer for ListDirectory {
    fn param_name() -> (r: &'static str)
        ensures
            r@ == "filepath"@,
    {
        "filepath"
    }

    fn result_name() -> (r: &'static str)
        ensures
            r@ == "selected files"@,
    {
        "selected files"
    }
}

} // verus!
