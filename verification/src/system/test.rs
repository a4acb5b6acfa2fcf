use vstd::prelude::*;

verus! {

/// A test window, holding a line of text.
#[derive(Clone)]
pub struct Test {
    test_data: String,
}

impl Test {
    /// The text this window holds.
    pub closed spec fn text(&self) -> Seq<char> {
        self.test_data@
    }

    /// The name of the test window.
    pub fn name() -> (r: String)
        ensures
            r@ == "test-window"@,
    {
        "test-window".to_owned()
    }
}

impl Default for Test {
    /// A test window with no text.
    fn default() -> (r: Self)
        ensures
            r.text() == Seq::<char>::empty(),
    {
        Self { test_data: String::new() }
    }
}

} // verus!
