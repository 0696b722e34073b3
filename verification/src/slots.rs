use vstd::prelude::*;

verus! {

/// A cardinal direction on the grid. Per-direction tables are indexed in the
/// fixed order North, East, South, West.
#[derive(Debug, Clone, Copy, PartialEq, Eq, Structural)]
pub enum Location {
    North,
    East,
    South,
    West,
}

impl Location {
    /// Position of this direction in the fixed N, E, S, W order.
    pub open spec fn index_spec(self) -> int {
        match self {
            Location::North => 0,
            Location::East => 1,
            Location::South => 2,
            Location::West => 3,
        }
    }

    pub fn index(self) -> (i: usize)
        ensures
            i == self.index_spec(),
    {
        match self {
            Location::North => 0,
            Location::East => 1,
            Location::South => 2,
            Location::West => 3,
        }
    }

    /// The direction seen from the opposite side: North and South swap,
    /// East and West swap.
    pub open spec fn opposite_spec(self) -> Location {
        match self {
            Location::North => Location::South,
            Location::East => Location::West,
            Location::South => Location::North,
            Location::West => Location::East,
        }
    }

    pub fn opposite(&self) -> (r: Self)
        ensures
            r == self.opposite_spec(),
    {
        match self {
            Location::North => Location::South,
            Location::East => Location::West,
            Location::South => Location::North,
            Location::West => Location::East,
        }
    }

    /// One quarter turn clockwise: North, East, South, West, North.
    pub open spec fn rotate_spec(self) -> Location {
        match self {
            Location::North => Location::East,
            Location::East => Location::South,
            Location::South => Location::West,
            Location::West => Location::North,
        }
    }

    pub fn rotate(&self) -> (r: Self)
        ensures
            r == self.rotate_spec(),
    {
        match self {
            Location::North => Location::East,
            Location::East => Location::South,
            Location::South => Location::West,
            Location::West => Location::North,
        }
    }

    /// Mirror about the vertical axis: East and West swap, North and South
    /// stay put.
    pub open spec fn reflect_spec(self) -> Location {
        match self {
            Location::North => Location::North,
            Location::East => Location::West,
            Location::South => Location::South,
            Location::West => Location::East,
        }
    }

    pub fn reflect(&self) -> (r: Self)
        ensures
            r == self.reflect_spec(),
    {
        match self {
            Location::North => Location::North,
            Location::East => Location::West,
            Location::South => Location::South,
            Location::West => Location::East,
        }
    }

    pub fn from_index(i: usize) -> (r: Self)
        requires
            i < 4,
        ensures
            r.index_spec() == i,
    {
        if i == 0 {
            Location::North
        } else if i == 1 {
            Location::East
        } else if i == 2 {
            Location::South
        } else {
            Location::West
        }
    }
}

/// Two edge sequences fit against each other: same length, and each element
/// equals the element at the mirrored position of the other. The reversal
/// reflects that two abutting patterns traverse their shared border in
/// opposite orders.
pub open spec fn seqs_abut(a: Seq<u32>, b: Seq<u32>) -> bool {
    &&& a.len() == b.len()
    &&& forall|i: int| 0 <= i < a.len() ==> a[i] == b[a.len() - 1 - i]
}

/// The fitting relation reads the same from either side.
pub proof fn lemma_seqs_abut_symmetric(a: Seq<u32>, b: Seq<u32>)
    ensures
        seqs_abut(a, b) == seqs_abut(b, a),
{
    if seqs_abut(a, b) {
        assert forall|i: int| 0 <= i < b.len() implies b[i] == a[b.len() - 1 - i] by {
            assert(a[b.len() - 1 - i] == b[a.len() - 1 - (b.len() - 1 - i)]);
        }
    }
    if seqs_abut(b, a) {
        assert forall|i: int| 0 <= i < a.len() implies a[i] == b[a.len() - 1 - i] by {
            assert(b[a.len() - 1 - i] == a[b.len() - 1 - (a.len() - 1 - i)]);
        }
    }
}

/// The border of a pattern along one of its four edges, read in the fixed
/// traversal order of that edge, together with the direction the edge faces.
pub struct Slot {
    data: Vec<u32>,
    location: Location,
}

impl Slot {
    pub closed spec fn cells(self) -> Seq<u32> {
        self.data@
    }

    pub closed spec fn facing(self) -> Location {
        self.location
    }

    pub fn new(data: Vec<u32>, location: Location) -> (s: Self)
        ensures
            s.cells() == data@,
            s.facing() == location,
    {
        Slot { data, location }
    }

    /// A slot may sit against another iff the directions are opposite and the
    /// two borders fit element for element, one of them read in reverse.
    pub open spec fn can_be_adjacent_spec(self, other: Slot) -> bool {
        &&& self.facing() == other.facing().opposite_spec()
        &&& seqs_abut(self.cells(), other.cells())
    }

    pub fn can_be_adjacent(&self, slot: &Slot) -> (r: bool)
        ensures
            r == self.can_be_adjacent_spec(*slot),
    {
        if self.location != slot.location.opposite() {
            return false;
        }

        if self.data.len() != slot.data.len() {
            return false;
        }

        let len: usize = self.data.len();
        let mut i: usize = 0;
        while i < len
            invariant
                len == self.data@.len(),
                len == slot.data@.len(),
                0 <= i <= len,
                forall|k: int| 0 <= k < i ==> self.data@[k] == slot.data@[len - 1 - k],
            decreases len - i,
        {
            if self.data[i] != slot.data[len - 1 - i] {
                return false;
            }
            i += 1;
        }
        true
    }

    /// Element-for-element comparison of the border with a plain vector.
    pub fn data_eq(&self, b: &Vec<u32>) -> (r: bool)
        ensures
            r == (self.cells() == b@),
    {
        if self.data.len() != b.len() {
            assert(self.cells() != b@) by {
                assert(self.cells().len() != b@.len());
            }
            return false;
        }
        let len: usize = self.data.len();
        let mut i: usize = 0;
        while i < len
            invariant
                len == self.data@.len(),
                len == b@.len(),
                0 <= i <= len,
                forall|k: int| 0 <= k < i ==> self.data@[k] == b@[k],
            decreases len - i,
        {
            if self.data[i] != b[i] {
                assert(self.cells() != b@) by {
                    assert(self.cells()[i as int] != b@[i as int]);
                }
                return false;
            }
            i += 1;
        }
        proof {
            assert(self.cells() =~= b@);
        }
        true
    }
}

/// Whatever two slots are, adjacency between them is symmetric: one fits
/// against the other exactly when the other fits against it.
pub proof fn lemma_can_be_adjacent_symmetric(a: Slot, b: Slot)
    ensures
        a.can_be_adjacent_spec(b) == b.can_be_adjacent_spec(a),
{
    lemma_seqs_abut_symmetric(a.cells(), b.cells());
}

} // verus!
