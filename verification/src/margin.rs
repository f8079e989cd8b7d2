use vstd::prelude::*;

verus! {

/// How far apart, in units in the last place, two coordinates may be and still count as
/// the same point.
#[derive(Debug, Clone, Copy, PartialEq, Eq, Structural)]
pub struct MarginCoord(pub u32);

impl Default for MarginCoord {
    /// One unit in the last place.
    fn default() -> (m: MarginCoord)
        ensures
            m == MarginCoord(1),
    {
        MarginCoord(1)
    }
}

impl From<u32> for MarginCoord {
    fn from(m: u32) -> (r: MarginCoord) {
        MarginCoord(m)
    }
}

impl vstd::std_specs::convert::FromSpecImpl<u32> for MarginCoord {
    open spec fn obeys_from_spec() -> bool {
        true
    }

    open spec fn from_spec(m: u32) -> MarginCoord {
        MarginCoord(m)
    }
}

} // verus!
