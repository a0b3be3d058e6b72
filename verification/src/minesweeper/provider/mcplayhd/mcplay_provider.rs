use vstd::prelude::*;
use vstd::string::StringSliceAdditionalSpecFns;

verus! {

/// The McPlayHD game-data provider; its network fetch and API key
/// handling live in the application around this library.
pub struct McPlayHdProvider;

impl McPlayHdProvider {
    pub fn id(&self) -> (r: &'static str)
        ensures
            r@ == "mcplayhd"@,
    {
        "mcplayhd"
    }

    pub fn name(&self) -> (r: &'static str)
        ensures
            r@ == "McPlayHD"@,
    {
        "McPlayHD"
    }
}

} // verus!
