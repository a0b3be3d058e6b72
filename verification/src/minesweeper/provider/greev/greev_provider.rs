use vstd::prelude::*;
use vstd::string::StringSliceAdditionalSpecFns;

verus! {

/// The Greev game-data provider; its network fetch lives in the
/// application around this library.
pub struct GreevProvider;

impl GreevProvider {
    pub fn id(&self) -> (r: &'static str)
        ensures
            r@ == "greev"@,
    {
        "greev"
    }

    pub fn name(&self) -> (r: &'static str)
        ensures
            r@ == "Greev"@,
    {
        "Greev"
    }
}

} // verus!
