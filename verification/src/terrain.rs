//! Terrain classification and the movement cost it derives. Cost is a
//! pure function of the biome: a small positive integer, or absent for
//! impassable terrain.

use vstd::prelude::*;

verus! {

/// Terrain classification of a tile.
#[derive(Clone, Copy, PartialEq, Eq, Structural, Debug, Hash)]
pub enum Biome {
    Mountain,
    Plains,
    Forest,
    Desert,
    ShallowWater,
    DeepWater,
    Snow,
}

/// Movement cost of entering a tile of the given biome; `None` means
/// the biome is impassable.
pub open spec fn biome_cost(b: Biome) -> Option<u32> {
    match b {
        Biome::Mountain => None,
        Biome::Plains => Some(1u32),
        Biome::Forest => Some(2u32),
        Biome::Desert => Some(3u32),
        Biome::ShallowWater => Some(4u32),
        Biome::DeepWater => None,
        Biome::Snow => Some(6u32),
    }
}

/// Every defined cost is a small positive integer.
pub proof fn lemma_biome_cost_range(b: Biome)
    ensures
        biome_cost(b) matches Some(k) ==> 1 <= k <= 6,
{
}

impl Biome {
    /// Movement-point price of entering a tile with this biome, or
    /// `None` if the biome never admits entry.
    pub fn cost(&self) -> (c: Option<u32>)
        ensures
            c == biome_cost(*self),
    {
        match self {
            Biome::Mountain => None,
            Biome::Plains => Some(1),
            Biome::Forest => Some(2),
            Biome::Desert => Some(3),
            Biome::ShallowWater => Some(4),
            Biome::DeepWater => None,
            Biome::Snow => Some(6),
        }
    }
}

/// A grid tile: carries its terrain classification, from which its
/// movement cost is derived. Cost never depends on context (who is
/// entering, or from where).
#[derive(Clone, Copy, PartialEq, Eq, Structural, Debug)]
pub struct Tile {
    pub biome: Biome,
}

impl Tile {
    pub fn new(biome: Biome) -> (t: Tile)
        ensures
            t.biome == biome,
    {
        Tile { biome }
    }

    /// Movement cost of entering this tile, derived from its biome.
    pub fn cost(&self) -> (c: Option<u32>)
        ensures
            c == biome_cost(self.biome),
    {
        self.biome.cost()
    }
}

} // verus!
