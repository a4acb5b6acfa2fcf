use vstd::prelude::*;

verus! {

/// The state a plugin passes to the app world.
pub struct PluginState {}

/// The user's app.
#[derive(Clone, Copy)]
pub struct UserApp;

} // verus!
