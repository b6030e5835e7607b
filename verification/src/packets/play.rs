//! Data of the play phase that has no float in it.
use vstd::prelude::*;

verus! {

/// The biome registry entry of a dimension codec.
#[derive(Clone, Debug)]
pub struct BiomeRegistry {
    pub name: String,
    pub id: i32,
    pub element: BiomeProperties,
}

/// The properties of a biome; none are modelled.
#[derive(Clone, Copy, Debug)]
pub struct BiomeProperties {}

} // verus!
