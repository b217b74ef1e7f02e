//! The closed set of harvestable resource kinds and their fixed, kind-specific
//! data, resolved by exhaustive match rather than virtual dispatch.

use vstd::prelude::*;

verus! {

#[derive(Clone, Copy, Debug, Eq, Hash, PartialEq, Structural)]
pub enum ResourceType {
    Wood,
    Copper,
}

impl ResourceType {
    /// The inclusive range of harvests a fresh node of this kind supports:
    /// trees yield more often than copper.
    pub fn get_base_harvests(&self) -> (r: (u32, u32))
        ensures
            *self == ResourceType::Wood ==> r == (6u32, 10u32),
            *self == ResourceType::Copper ==> r == (4u32, 7u32),
            1 <= r.0 <= r.1,
    {
        match self {
            ResourceType::Wood => (6, 10),
            ResourceType::Copper => (4, 7),
        }
    }

    pub fn get_display_name(&self) -> (r: &'static str)
        ensures
            *self == ResourceType::Wood ==> r@ == "Wood"@,
            *self == ResourceType::Copper ==> r@ == "Copper"@,
    {
        match self {
            ResourceType::Wood => "Wood",
            ResourceType::Copper => "Copper",
        }
    }

    pub fn get_symbol(&self) -> (r: &'static str)
        ensures
            *self == ResourceType::Wood ==> r@ == "/\\"@,
            *self == ResourceType::Copper ==> r@ == "Cu"@,
    {
        match self {
            ResourceType::Wood => "/\\",
            ResourceType::Copper => "Cu",
        }
    }
}

} // verus!
