use vstd::arithmetic::div_mod::{lemma_fundamental_div_mod, lemma_fundamental_div_mod_converse};
use vstd::prelude::*;

use crate::numeric::{integer_square_root, is_perfect_square, lemma_square_root_unique};
use crate::slots::{seqs_abut, Location, Slot};

verus! {

/// Row-major cell data of a square pattern of side n, rotated a quarter turn
/// clockwise: the output cell at row r, column c comes from row n-1-c,
/// column r of the input.
pub open spec fn rotate_seq(s: Seq<u32>, n: nat) -> Seq<u32> {
    Seq::new(s.len(), |i: int| s[(n - 1 - i % (n as int)) * (n as int) + i / (n as int)])
}

/// Row-major cell data mirrored about the vertical axis: the output cell at
/// row r, column c comes from row r, column n-1-c of the input.
pub open spec fn reflect_seq(s: Seq<u32>, n: nat) -> Seq<u32> {
    Seq::new(s.len(), |i: int| s[(i / (n as int)) * (n as int) + (n - 1 - i % (n as int))])
}

/// The eight dihedral images of a square's data, in the order that
/// `Pattern::all_permutations` produces them: the pattern itself, its
/// reflection, and the reflection pairs of the three further rotations.
pub open spec fn permutation_seqs(s: Seq<u32>, n: nat) -> Seq<Seq<u32>> {
    seq![
        s,
        reflect_seq(s, n),
        rotate_seq(s, n),
        reflect_seq(rotate_seq(s, n), n),
        rotate_seq(rotate_seq(s, n), n),
        reflect_seq(rotate_seq(rotate_seq(s, n), n), n),
        rotate_seq(rotate_seq(rotate_seq(s, n), n), n),
        reflect_seq(rotate_seq(rotate_seq(rotate_seq(s, n), n), n), n),
    ]
}

/// The border cells of row-major data along one edge: north is the first row
/// left to right, east the last column top to bottom, south the last row left
/// to right, west the first column top to bottom.
pub open spec fn edge_seq(s: Seq<u32>, n: nat, loc: Location) -> Seq<u32> {
    match loc {
        Location::North => s.subrange(0, n as int),
        Location::East => Seq::new(n, |i: int| s[i * (n as int) + (n - 1)]),
        Location::South => s.subrange(s.len() - n, s.len() as int),
        Location::West => Seq::new(n, |i: int| s[i * (n as int)]),
    }
}

/// Decompose a flat index of an n-by-n square into its row and column.
proof fn lemma_decode(n: nat, i: int)
    requires
        0 <= i < n * n,
    ensures
        0 <= i / (n as int) < n,
        0 <= i % (n as int) < n,
        i == (i / (n as int)) * (n as int) + i % (n as int),
{
    let ni = n as int;
    assert(n > 0) by (nonlinear_arith)
        requires i < n * n, 0 <= i,
    ;
    lemma_fundamental_div_mod(i, ni);
    assert(0 <= i % ni < ni) by (nonlinear_arith)
        requires ni > 0, i >= 0,
    ;
    assert(i / ni >= 0) by (nonlinear_arith)
        requires ni > 0, i >= 0,
    ;
    if i / ni >= ni {
        assert(ni * (i / ni) >= ni * ni) by (nonlinear_arith)
            requires i / ni >= ni, ni > 0,
        ;
    }
}

/// A row and column of an n-by-n square give a flat index inside the square,
/// and the index decodes back to them.
proof fn lemma_encode(n: nat, r: int, c: int)
    requires
        0 <= r < n,
        0 <= c < n,
    ensures
        0 <= r * (n as int) + c < n * n,
        (r * (n as int) + c) / (n as int) == r,
        (r * (n as int) + c) % (n as int) == c,
{
    let ni = n as int;
    assert(0 <= r * ni + c < n * n) by (nonlinear_arith)
        requires 0 <= r < n, 0 <= c < n, ni == n,
    ;
    lemma_fundamental_div_mod_converse(r * ni + c, ni, r, c);
}

/// Where one cell of a rotated square comes from.
proof fn lemma_rotate_entry(s: Seq<u32>, n: nat, r: int, c: int)
    requires
        s.len() == n * n,
        0 <= r < n,
        0 <= c < n,
    ensures
        rotate_seq(s, n)[r * (n as int) + c] == s[(n - 1 - c) * (n as int) + r],
        0 <= (n - 1 - c) * (n as int) + r < n * n,
{
    lemma_encode(n, r, c);
    lemma_encode(n, n - 1 - c, r);
}

/// Where one cell of a reflected square comes from.
proof fn lemma_reflect_entry(s: Seq<u32>, n: nat, r: int, c: int)
    requires
        s.len() == n * n,
        0 <= r < n,
        0 <= c < n,
    ensures
        reflect_seq(s, n)[r * (n as int) + c] == s[r * (n as int) + (n - 1 - c)],
        0 <= r * (n as int) + (n - 1 - c) < n * n,
{
    lemma_encode(n, r, c);
    lemma_encode(n, r, n - 1 - c);
}

/// Four quarter turns are the identity.
pub proof fn lemma_rotate_four_identity(s: Seq<u32>, n: nat)
    requires
        s.len() == n * n,
    ensures
        rotate_seq(rotate_seq(rotate_seq(rotate_seq(s, n), n), n), n) == s,
{
    let ni = n as int;
    let s1 = rotate_seq(s, n);
    let s2 = rotate_seq(s1, n);
    let s3 = rotate_seq(s2, n);
    let s4 = rotate_seq(s3, n);
    assert forall|i: int| 0 <= i < s.len() implies s4[i] == s[i] by {
        lemma_decode(n, i);
        let r = i / ni;
        let c = i % ni;
        lemma_rotate_entry(s3, n, r, c);
        lemma_rotate_entry(s2, n, n - 1 - c, r);
        lemma_rotate_entry(s1, n, n - 1 - r, n - 1 - c);
        lemma_rotate_entry(s, n, c, n - 1 - r);
    }
    assert(s4 =~= s);
}

/// Two reflections are the identity.
pub proof fn lemma_reflect_twice_identity(s: Seq<u32>, n: nat)
    requires
        s.len() == n * n,
    ensures
        reflect_seq(reflect_seq(s, n), n) == s,
{
    let ni = n as int;
    let s1 = reflect_seq(s, n);
    let s2 = reflect_seq(s1, n);
    assert forall|i: int| 0 <= i < s.len() implies s2[i] == s[i] by {
        lemma_decode(n, i);
        let r = i / ni;
        let c = i % ni;
        lemma_reflect_entry(s1, n, r, c);
        lemma_reflect_entry(s, n, r, n - 1 - c);
    }
    assert(s2 =~= s);
}

/// Rotating a reflection is the same as reflecting the third rotation: the
/// exchange law that closes the dihedral family.
pub proof fn lemma_rotate_reflect_exchange(s: Seq<u32>, n: nat)
    requires
        s.len() == n * n,
    ensures
        rotate_seq(reflect_seq(s, n), n)
            == reflect_seq(rotate_seq(rotate_seq(rotate_seq(s, n), n), n), n),
{
    let ni = n as int;
    let f = reflect_seq(s, n);
    let rf = rotate_seq(f, n);
    let r1 = rotate_seq(s, n);
    let r2 = rotate_seq(r1, n);
    let r3 = rotate_seq(r2, n);
    let fr3 = reflect_seq(r3, n);
    assert forall|i: int| 0 <= i < s.len() implies rf[i] == fr3[i] by {
        lemma_decode(n, i);
        let r = i / ni;
        let c = i % ni;
        lemma_rotate_entry(f, n, r, c);
        lemma_reflect_entry(s, n, n - 1 - c, r);
        lemma_reflect_entry(r3, n, r, c);
        lemma_rotate_entry(r2, n, r, n - 1 - c);
        lemma_rotate_entry(r1, n, c, r);
        lemma_rotate_entry(s, n, n - 1 - r, c);
    }
    assert(rf =~= fr3);
}

/// The eight dihedral images of a square are closed under both symmetry
/// operations: rotating or reflecting any member of the family lands on a
/// member of the family.
pub proof fn lemma_permutation_set_closed(s: Seq<u32>, n: nat)
    requires
        s.len() == n * n,
    ensures
        forall|k: int|
            0 <= k < 8 ==> permutation_seqs(s, n).contains(
                rotate_seq(#[trigger] permutation_seqs(s, n)[k], n),
            ),
        forall|k: int|
            0 <= k < 8 ==> permutation_seqs(s, n).contains(
                reflect_seq(#[trigger] permutation_seqs(s, n)[k], n),
            ),
{
    let p = permutation_seqs(s, n);
    let r1 = rotate_seq(s, n);
    let r2 = rotate_seq(r1, n);
    let r3 = rotate_seq(r2, n);

    lemma_rotate_four_identity(s, n);
    lemma_reflect_twice_identity(s, n);
    lemma_reflect_twice_identity(r1, n);
    lemma_reflect_twice_identity(r2, n);
    lemma_reflect_twice_identity(r3, n);
    lemma_rotate_reflect_exchange(s, n);
    lemma_rotate_reflect_exchange(r1, n);
    lemma_rotate_reflect_exchange(r2, n);
    lemma_rotate_reflect_exchange(r3, n);

    // Rotations of the eight members.
    assert(rotate_seq(p[0], n) == p[2]);
    assert(rotate_seq(p[1], n) == p[7]);
    assert(rotate_seq(p[2], n) == p[4]);
    assert(rotate_seq(p[3], n) == p[1]) by {
        assert(rotate_seq(reflect_seq(r1, n), n)
            == reflect_seq(rotate_seq(rotate_seq(rotate_seq(r1, n), n), n), n));
        assert(rotate_seq(rotate_seq(rotate_seq(r1, n), n), n) == rotate_seq(r3, n));
        assert(rotate_seq(r3, n) == s);
    }
    assert(rotate_seq(p[4], n) == p[6]);
    assert(rotate_seq(p[5], n) == p[3]) by {
        assert(rotate_seq(reflect_seq(r2, n), n)
            == reflect_seq(rotate_seq(rotate_seq(rotate_seq(r2, n), n), n), n));
        assert(rotate_seq(r3, n) == s);
        assert(rotate_seq(rotate_seq(rotate_seq(r2, n), n), n) == rotate_seq(s, n));
    }
    assert(rotate_seq(p[6], n) == p[0]);
    assert(rotate_seq(p[7], n) == p[5]) by {
        assert(rotate_seq(reflect_seq(r3, n), n)
            == reflect_seq(rotate_seq(rotate_seq(rotate_seq(r3, n), n), n), n));
        assert(rotate_seq(r3, n) == s);
        assert(rotate_seq(rotate_seq(rotate_seq(r3, n), n), n) == rotate_seq(rotate_seq(s, n), n));
    }

    // Reflections of the eight members.
    assert(reflect_seq(p[0], n) == p[1]);
    assert(reflect_seq(p[1], n) == p[0]);
    assert(reflect_seq(p[2], n) == p[3]);
    assert(reflect_seq(p[3], n) == p[2]);
    assert(reflect_seq(p[4], n) == p[5]);
    assert(reflect_seq(p[5], n) == p[4]);
    assert(reflect_seq(p[6], n) == p[7]);
    assert(reflect_seq(p[7], n) == p[6]);

    assert forall|k: int| 0 <= k < 8 implies p.contains(rotate_seq(#[trigger] p[k], n)) by {
        if k == 0 { assert(p[2] == rotate_seq(p[0], n)); }
        if k == 1 { assert(p[7] == rotate_seq(p[1], n)); }
        if k == 2 { assert(p[4] == rotate_seq(p[2], n)); }
        if k == 3 { assert(p[1] == rotate_seq(p[3], n)); }
        if k == 4 { assert(p[6] == rotate_seq(p[4], n)); }
        if k == 5 { assert(p[3] == rotate_seq(p[5], n)); }
        if k == 6 { assert(p[0] == rotate_seq(p[6], n)); }
        if k == 7 { assert(p[5] == rotate_seq(p[7], n)); }
    }
    assert forall|k: int| 0 <= k < 8 implies p.contains(reflect_seq(#[trigger] p[k], n)) by {
        if k == 0 { assert(p[1] == reflect_seq(p[0], n)); }
        if k == 1 { assert(p[0] == reflect_seq(p[1], n)); }
        if k == 2 { assert(p[3] == reflect_seq(p[2], n)); }
        if k == 3 { assert(p[2] == reflect_seq(p[3], n)); }
        if k == 4 { assert(p[5] == reflect_seq(p[4], n)); }
        if k == 5 { assert(p[4] == reflect_seq(p[5], n)); }
        if k == 6 { assert(p[7] == reflect_seq(p[6], n)); }
        if k == 7 { assert(p[6] == reflect_seq(p[7], n)); }
    }
}

/// A square grid of sample cells in row-major order.
pub struct Pattern {
    data: Vec<u32>,
    size: usize,
}

fn copy_cells(v: &Vec<u32>) -> (r: Vec<u32>)
    ensures
        r@ == v@,
{
    let len: usize = v.len();
    let mut out: Vec<u32> = Vec::new();
    let mut i: usize = 0;
    while i < len
        invariant
            len == v@.len(),
            out@.len() == i,
            0 <= i <= len,
            forall|k: int| 0 <= k < i ==> out@[k] == v@[k],
        decreases len - i,
    {
        out.push(v[i]);
        i += 1;
    }
    proof {
        assert(out@ =~= v@);
    }
    out
}

impl Clone for Pattern {
    fn clone(&self) -> (p: Self)
        ensures
            p.cells() == self.cells(),
            p.side() == self.side(),
    {
        Pattern { data: copy_cells(&self.data), size: self.size }
    }
}

impl Pattern {
    pub closed spec fn cells(self) -> Seq<u32> {
        self.data@
    }

    pub closed spec fn side(self) -> nat {
        self.size as nat
    }

    pub open spec fn wf(self) -> bool {
        self.cells().len() == self.side() * self.side()
    }

    /// Pattern a may sit with pattern b on its loc side iff a's edge there
    /// fits b's opposite edge, the latter read in reverse.
    pub open spec fn compatible_spec(a: Pattern, b: Pattern, loc: Location) -> bool {
        seqs_abut(
            edge_seq(a.cells(), a.side(), loc),
            edge_seq(b.cells(), b.side(), loc.opposite_spec()),
        )
    }

    pub fn new(data: Vec<u32>) -> (p: Pattern)
        requires
            is_perfect_square(data@.len() as nat),
        ensures
            p.wf(),
            p.cells() == data@,
            p.side() * p.side() == data@.len(),
    {
        let size = integer_square_root(data.len());
        proof {
            let s = choose|s: nat| data@.len() as nat == #[trigger] (s * s);
            lemma_square_root_unique(s, size as nat, data@.len() as nat);
        }
        Pattern { data, size }
    }

    pub fn data(&self) -> (d: &Vec<u32>)
        ensures
            d@ == self.cells(),
    {
        &self.data
    }

    pub fn side_len(&self) -> (n: usize)
        ensures
            n == self.side(),
    {
        self.size
    }

    /// Cell-for-cell equality of two patterns.
    pub fn eq_pattern(&self, other: &Pattern) -> (r: bool)
        ensures
            r == (self.cells() == other.cells() && self.side() == other.side()),
    {
        if self.size != other.size {
            return false;
        }
        if self.data.len() != other.data.len() {
            assert(self.cells() != other.cells()) by {
                assert(self.cells().len() != other.cells().len());
            }
            return false;
        }
        let len: usize = self.data.len();
        let mut i: usize = 0;
        while i < len
            invariant
                len == self.data@.len(),
                len == other.data@.len(),
                0 <= i <= len,
                forall|k: int| 0 <= k < i ==> self.data@[k] == other.data@[k],
            decreases len - i,
        {
            if self.data[i] != other.data[i] {
                assert(self.cells() != other.cells()) by {
                    assert(self.cells()[i as int] != other.cells()[i as int]);
                }
                return false;
            }
            i += 1;
        }
        proof {
            assert(self.cells() =~= other.cells());
        }
        true
    }

    /// The border of this pattern along one edge, in that edge's fixed
    /// traversal order.
    pub fn slot(&self, location: Location) -> (s: Slot)
        requires
            self.wf(),
        ensures
            s.facing() == location,
            s.cells() == edge_seq(self.cells(), self.side(), location),
    {
        let n: usize = self.size;
        let len: usize = self.data.len();
        let mut out: Vec<u32> = Vec::new();
        match location {
            Location::North => {
                let mut i: usize = 0;
                proof {
                    assert(n <= n * n) by (nonlinear_arith);
                }
                while i < n
                    invariant
                        n <= self.data@.len(),
                        n == self.side(),
                        out@.len() == i,
                        0 <= i <= n,
                        forall|k: int| 0 <= k < i ==> out@[k] == self.data@[k],
                    decreases n - i,
                {
                    out.push(self.data[i]);
                    i += 1;
                }
                proof {
                    assert(out@ =~= edge_seq(self.cells(), self.side(), location));
                }
            },
            Location::East => {
                let mut i: usize = 0;
                while i < n
                    invariant
                        self.data@.len() == n * n,
                        len == self.data@.len(),
                        n == self.side(),
                        out@.len() == i,
                        0 <= i <= n,
                        forall|k: int| 0 <= k < i ==> out@[k] == self.data@[k * (n as int) + (n - 1)],
                    decreases n - i,
                {
                    proof {
                        lemma_encode(n as nat, i as int, n - 1);
                    }
                    out.push(self.data[i * n + (n - 1)]);
                    i += 1;
                }
                proof {
                    assert(out@ =~= edge_seq(self.cells(), self.side(), location));
                }
            },
            Location::South => {
                let mut i: usize = 0;
                proof {
                    assert(n <= n * n) by (nonlinear_arith);
                }
                while i < n
                    invariant
                        self.data@.len() == n * n,
                        len == self.data@.len(),
                        n <= self.data@.len(),
                        n == self.side(),
                        out@.len() == i,
                        0 <= i <= n,
                        forall|k: int| 0 <= k < i ==> out@[k] == self.data@[self.data@.len() - n + k],
                    decreases n - i,
                {
                    out.push(self.data[len - n + i]);
                    i += 1;
                }
                proof {
                    assert(out@ =~= edge_seq(self.cells(), self.side(), location));
                }
            },
            Location::West => {
                let mut i: usize = 0;
                while i < n
                    invariant
                        self.data@.len() == n * n,
                        len == self.data@.len(),
                        n == self.side(),
                        out@.len() == i,
                        0 <= i <= n,
                        forall|k: int| 0 <= k < i ==> out@[k] == self.data@[k * (n as int)],
                    decreases n - i,
                {
                    proof {
                        lemma_encode(n as nat, i as int, 0);
                    }
                    out.push(self.data[i * n]);
                    i += 1;
                }
                proof {
                    assert(out@ =~= edge_seq(self.cells(), self.side(), location));
                }
            },
        }
        Slot::new(out, location)
    }

    /// Whether this pattern accepts b as its neighbour on the b_location side.
    pub fn is_compatible(&self, b: &Pattern, b_location: Location) -> (r: bool)
        requires
            self.wf(),
            b.wf(),
        ensures
            r == Pattern::compatible_spec(*self, *b, b_location),
    {
        self.slot(b_location).can_be_adjacent(&b.slot(b_location.opposite()))
    }

    /// A quarter turn clockwise.
    pub fn rotate(&self) -> (p: Pattern)
        requires
            self.wf(),
        ensures
            p.wf(),
            p.side() == self.side(),
            p.cells() == rotate_seq(self.cells(), self.side()),
    {
        let n: usize = self.size;
        let len: usize = self.data.len();
        let mut out: Vec<u32> = Vec::new();
        let mut i: usize = 0;
        while i < len
            invariant
                self.data@.len() == n * n,
                len == self.data@.len(),
                n == self.side(),
                out@.len() == i,
                0 <= i <= len,
                forall|k: int|
                    0 <= k < i ==> out@[k] == self.data@[
                        (n - 1 - k % (n as int)) * (n as int) + k / (n as int)
                    ],
            decreases len - i,
        {
            proof {
                lemma_decode(n as nat, i as int);
                lemma_encode(n as nat, n - 1 - (i as int) % (n as int), (i as int) / (n as int));
            }
            let r: usize = i / n;
            let c: usize = i % n;
            out.push(self.data[(n - 1 - c) * n + r]);
            i += 1;
        }
        proof {
            assert(out@ =~= rotate_seq(self.cells(), self.side()));
        }
        Pattern { data: out, size: n }
    }

    /// A mirror image about the vertical axis.
    pub fn reflect(&self) -> (p: Pattern)
        requires
            self.wf(),
        ensures
            p.wf(),
            p.side() == self.side(),
            p.cells() == reflect_seq(self.cells(), self.side()),
    {
        let n: usize = self.size;
        let len: usize = self.data.len();
        let mut out: Vec<u32> = Vec::new();
        let mut i: usize = 0;
        while i < len
            invariant
                self.data@.len() == n * n,
                len == self.data@.len(),
                n == self.side(),
                out@.len() == i,
                0 <= i <= len,
                forall|k: int|
                    0 <= k < i ==> out@[k] == self.data@[
                        (k / (n as int)) * (n as int) + (n - 1 - k % (n as int))
                    ],
            decreases len - i,
        {
            proof {
                lemma_decode(n as nat, i as int);
                lemma_encode(n as nat, (i as int) / (n as int), n - 1 - (i as int) % (n as int));
            }
            let r: usize = i / n;
            let c: usize = i % n;
            out.push(self.data[r * n + (n - 1 - c)]);
            i += 1;
        }
        proof {
            assert(out@ =~= reflect_seq(self.cells(), self.side()));
        }
        Pattern { data: out, size: n }
    }

    /// The eight dihedral images of this pattern: itself, its reflection, and
    /// the reflection pairs of its three further rotations.
    pub fn all_permutations(self) -> (r: Vec<Pattern>)
        requires
            self.wf(),
        ensures
            r@.len() == 8,
            forall|k: int|
                0 <= k < 8 ==> (#[trigger] r@[k]).wf() && r@[k].side() == self.side()
                    && r@[k].cells() == permutation_seqs(self.cells(), self.side())[k],
    {
        let reflected = self.reflect();
        let rotated = self.rotate();
        let rotated_reflected = rotated.reflect();
        let rotated_rotated = rotated.rotate();
        let rotated_rotated_reflected = rotated_rotated.reflect();
        let rotated_rotated_rotated = rotated_rotated.rotate();
        let rotated_rotated_rotated_reflected = rotated_rotated_rotated.reflect();

        let mut out: Vec<Pattern> = Vec::new();
        out.push(self);
        out.push(reflected);
        out.push(rotated);
        out.push(rotated_reflected);
        out.push(rotated_rotated);
        out.push(rotated_rotated_reflected);
        out.push(rotated_rotated_rotated);
        out.push(rotated_rotated_rotated_reflected);
        out
    }
}

/// Tile compatibility read from the other side: a accepts b on its loc side
/// exactly when b accepts a on the side facing back.
pub proof fn lemma_compatible_symmetric(a: Pattern, b: Pattern, loc: Location)
    ensures
        Pattern::compatible_spec(a, b, loc)
            == Pattern::compatible_spec(b, a, loc.opposite_spec()),
{
    crate::slots::lemma_seqs_abut_symmetric(
        edge_seq(a.cells(), a.side(), loc),
        edge_seq(b.cells(), b.side(), loc.opposite_spec()),
    );
}

} // verus!
