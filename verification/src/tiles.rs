use vstd::prelude::*;

use crate::patterns::Pattern;
use crate::slots::Location;

verus! {

/// Dense index of a tile in the tile list.
#[derive(Debug, Clone, Copy, PartialEq, Eq, Structural)]
pub struct TileId(pub usize);

/// A pattern together with its sampling weight and dense id. The weight is
/// the number of occurrences of the pattern among the symmetry-expanded
/// windows of the exemplar; sampling proportional to weight is sampling
/// proportional to the normalised frequency.
pub struct Tile {
    pattern: Pattern,
    weight: u64,
    id: TileId,
}

impl Tile {
    pub closed spec fn spec_pattern(self) -> Pattern {
        self.pattern
    }

    pub closed spec fn spec_weight(self) -> u64 {
        self.weight
    }

    pub closed spec fn spec_id(self) -> TileId {
        self.id
    }

    pub open spec fn wf(self) -> bool {
        &&& self.spec_pattern().wf()
        &&& self.spec_weight() >= 1
    }

    pub fn new(pattern: Pattern, weight: u64, id: usize) -> (t: Tile)
        requires
            pattern.wf(),
            weight >= 1,
        ensures
            t.wf(),
            t.spec_pattern() == pattern,
            t.spec_weight() == weight,
            t.spec_id() == TileId(id),
    {
        Tile { pattern, weight, id: TileId(id) }
    }

    pub fn data(&self) -> (d: &Vec<u32>)
        ensures
            d@ == self.spec_pattern().cells(),
    {
        self.pattern.data()
    }

    pub fn pattern(&self) -> (p: &Pattern)
        ensures
            *p == self.spec_pattern(),
    {
        &self.pattern
    }

    pub fn weight(&self) -> (w: u64)
        ensures
            w == self.spec_weight(),
    {
        self.weight
    }

    pub fn id(&self) -> (i: TileId)
        ensures
            i == self.spec_id(),
    {
        self.id
    }

    /// Whether this tile accepts b as its neighbour on the b_location side.
    pub fn is_compatible(&self, b: &Tile, b_location: Location) -> (r: bool)
        requires
            self.wf(),
            b.wf(),
        ensures
            r == Pattern::compatible_spec(self.spec_pattern(), b.spec_pattern(), b_location),
    {
        self.pattern.is_compatible(&b.pattern, b_location)
    }
}

/// One propagation event: a tile that was just eliminated at a cell.
pub(crate) struct RemovedTile {
    pub(crate) cell_index: usize,
    pub(crate) tile: TileId,
}

} // verus!
