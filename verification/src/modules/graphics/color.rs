use crate::system::{Display, NodeExterior, Reducer};
use vstd::prelude::*;

verus! {

/// Edits a color from its red, green and blue channels, and shows a preview.
pub struct ColorEditor;

impl NodeExterior for ColorEditor {
    fn title() -> (r: &'static str)
        ensures
            r@ == "Color Editor"@,
    {
        "Color Editor"
    }

    fn group_name() -> (r: &'static str)
        ensures
            r@ == "Graphics"@,
    {
        "Graphics"
    }
}

impl Display for ColorEditor {
    fn display_name() -> (r: &'static str)
        ensures
            r@ == "preview"@,
    {
        "preview"
    }
}

/// The red channel of a color.
#[derive(Clone, Copy)]
pub struct RedChannel;

impl NodeExterior for RedChannel {
    fn title() -> (r: &'static str)
        ensures
            r@ == "Red Channel"@,
    {
        "Red Channel"
    }

    fn group_name() -> (r: &'static str)
        ensures
            r@ == "Graphics"@,
    {
        "Graphics"
    }
}

impl Reducer for RedChannel {
    fn param_name() -> (r: &'static str)
        ensures
            r@ == "red"@,
    {
        "red"
    }

    fn result_name() -> (r: &'static str)
        ensures
            r@ == "red_channel"@,
    {
        "red_channel"
    }
}

/// The green channel of a color.
pub struct GreenChannel;

impl NodeExterior for GreenChannel {
    fn title() -> (r: &'static str)
        ensures
            r@ == "Green Channel"@,
    {
        "Green Channel"
    }

    fn group_name() -> (r: &'static str)
        ensures
            r@ == "Graphics"@,
    {
        "Graphics"
    }
}

impl Reducer for GreenChannel {
    fn param_name() -> (r: &'static str)
        ensures
            r@ == "green"@,
    {
        "green"
    }

    fn result_name() -> (r: &'static str)
        ensures
            r@ == "green_channel"@,
    {
        "green_channel"
    }
}

/// The blue channel of a color.
pub struct BlueChannel;

impl NodeExterior for BlueChannel {
    fn title() -> (r: &'static str)
        ensures
            r@ == "Blue Channel"@,
    {
        "Blue Channel"
    }

    fn group_name() -> (r: &'static str)
        ensures
            r@ == "Graphics"@,
    {
        "Graphics"
    }
}

impl Reducer for BlueChannel {
    fn param_name() -> (r: &'static str)
        ensures
            r@ == "blue"@,
    {
        "blue"
    }

    fn result_name() -> (r: &'static str)
        ensures
            r@ == "blue_channel"@,
    {
        "blue_channel"
    }
}

} // verus!
