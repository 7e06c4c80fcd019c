use vstd::prelude::*;

verus! {

/// Names the random number service of an application. The library draws no
/// random numbers itself: the application installs a generator under this
/// name and hands the library the values it drew.
#[derive(Clone, Copy, Debug, Default)]
pub struct RandomPlugin;

} // verus!
