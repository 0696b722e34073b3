use vstd::prelude::*;

use crate::numeric::{lemma_log2_floor_monotone, lemma_log2_floor_small, log2_floor, log2_floor_exec};
use crate::rng::random_below;
use crate::slots::Location;
use crate::tiles::TileId;

verus! {

/// Number of set flags among the first k.
pub open spec fn count_rem(rem: Seq<bool>, k: int) -> int
    decreases k,
{
    if k <= 0 {
        0
    } else {
        count_rem(rem, k - 1) + if rem[k - 1] { 1int } else { 0int }
    }
}

/// Sum of the weights at the set flags among the first k.
pub open spec fn sum_rem(w: Seq<u64>, rem: Seq<bool>, k: int) -> int
    decreases k,
{
    if k <= 0 {
        0
    } else {
        sum_rem(w, rem, k - 1) + if rem[k - 1] { w[k - 1] as int } else { 0int }
    }
}

/// Sum of weight times floor-log2 of weight at the set flags among the
/// first k: the integer analogue of the cached entropy numerator.
pub open spec fn sum_wlw(w: Seq<u64>, rem: Seq<bool>, k: int) -> int
    decreases k,
{
    if k <= 0 {
        0
    } else {
        sum_wlw(w, rem, k - 1) + if rem[k - 1] {
            w[k - 1] * log2_floor(w[k - 1] as nat)
        } else {
            0int
        }
    }
}

/// Sum of the first k weights, set or not.
pub open spec fn sum_weights_all(w: Seq<u64>, k: int) -> int
    decreases k,
{
    if k <= 0 {
        0
    } else {
        sum_weights_all(w, k - 1) + w[k - 1]
    }
}

pub proof fn lemma_count_rem_bounds(rem: Seq<bool>, k: int)
    ensures
        0 <= count_rem(rem, k) <= if k <= 0 { 0int } else { k },
    decreases k,
{
    if k > 0 {
        lemma_count_rem_bounds(rem, k - 1);
    }
}

pub proof fn lemma_count_rem_all_true(rem: Seq<bool>, k: int)
    requires
        forall|j: int| 0 <= j < k ==> rem[j],
    ensures
        count_rem(rem, k) == if k <= 0 { 0int } else { k },
    decreases k,
{
    if k > 0 {
        lemma_count_rem_all_true(rem, k - 1);
    }
}

pub proof fn lemma_count_rem_ge_one(rem: Seq<bool>, j: int, k: int)
    requires
        0 <= j < k,
        rem[j],
    ensures
        count_rem(rem, k) >= 1,
    decreases k,
{
    lemma_count_rem_bounds(rem, k - 1);
    if j < k - 1 {
        lemma_count_rem_ge_one(rem, j, k - 1);
    }
}

pub proof fn lemma_count_rem_two(rem: Seq<bool>, j1: int, j2: int, k: int)
    requires
        0 <= j1 < j2 < k,
        rem[j1],
        rem[j2],
    ensures
        count_rem(rem, k) >= 2,
    decreases k,
{
    if j2 == k - 1 {
        lemma_count_rem_ge_one(rem, j1, k - 1);
    } else {
        lemma_count_rem_two(rem, j1, j2, k - 1);
        lemma_count_rem_bounds(rem, k - 1);
    }
}

/// When exactly one flag can be set, a set flag pins every other flag false.
pub proof fn lemma_count_rem_one_unique(rem: Seq<bool>, j: int, k: int)
    requires
        count_rem(rem, k) <= 1,
        0 <= j < k,
        rem[j],
    ensures
        forall|j2: int| 0 <= j2 < k && j2 != j ==> !rem[j2],
{
    assert forall|j2: int| 0 <= j2 < k && j2 != j implies !rem[j2] by {
        if rem[j2] {
            if j < j2 {
                lemma_count_rem_two(rem, j, j2, k);
            } else {
                lemma_count_rem_two(rem, j2, j, k);
            }
        }
    }
}

pub proof fn lemma_count_rem_update_false(rem: Seq<bool>, t: int, k: int)
    requires
        0 <= t < k <= rem.len(),
        rem[t],
    ensures
        count_rem(rem.update(t, false), k) == count_rem(rem, k) - 1,
    decreases k,
{
    if t == k - 1 {
        lemma_count_rem_unchanged(rem, rem.update(t, false), k - 1);
    } else {
        lemma_count_rem_update_false(rem, t, k - 1);
    }
}

/// Two flag sequences that agree on the first k positions count alike there.
pub proof fn lemma_count_rem_unchanged(a: Seq<bool>, b: Seq<bool>, k: int)
    requires
        forall|j: int| 0 <= j < k ==> a[j] == b[j],
    ensures
        count_rem(a, k) == count_rem(b, k),
    decreases k,
{
    if k > 0 {
        lemma_count_rem_unchanged(a, b, k - 1);
    }
}

/// A flag set at exactly one position counts 1.
pub proof fn lemma_count_rem_singleton(rem: Seq<bool>, c: int, k: int)
    requires
        0 <= c,
        forall|j: int| 0 <= j < k ==> (rem[j] <==> j == c),
    ensures
        count_rem(rem, k) == if c < k { 1int } else { 0int },
    decreases k,
{
    if k > 0 {
        lemma_count_rem_singleton(rem, c, k - 1);
    }
}

pub proof fn lemma_sum_rem_nonneg(w: Seq<u64>, rem: Seq<bool>, k: int)
    ensures
        sum_rem(w, rem, k) >= 0,
    decreases k,
{
    if k > 0 {
        lemma_sum_rem_nonneg(w, rem, k - 1);
    }
}

pub proof fn lemma_sum_rem_le_all(w: Seq<u64>, rem: Seq<bool>, k: int)
    ensures
        sum_rem(w, rem, k) <= sum_weights_all(w, k),
    decreases k,
{
    if k > 0 {
        lemma_sum_rem_le_all(w, rem, k - 1);
    }
}

pub proof fn lemma_sum_weights_all_monotone(w: Seq<u64>, k1: int, k2: int)
    requires
        k1 <= k2,
    ensures
        sum_weights_all(w, k1) <= sum_weights_all(w, k2),
    decreases k2,
{
    if k1 < k2 && k2 > 0 {
        lemma_sum_weights_all_monotone(w, k1, k2 - 1);
    }
}

/// Each weight is at most the sum of all of them.
pub proof fn lemma_sum_weights_all_term_le(w: Seq<u64>, t: int, k: int)
    requires
        0 <= t < k,
    ensures
        w[t] <= sum_weights_all(w, k),
    decreases k,
{
    if t == k - 1 {
        lemma_sum_weights_all_nonneg(w, k - 1);
    } else {
        lemma_sum_weights_all_term_le(w, t, k - 1);
    }
}

pub proof fn lemma_sum_weights_all_update(w: Seq<u64>, t: int, v: u64, k: int)
    requires
        0 <= t < k <= w.len(),
    ensures
        sum_weights_all(w.update(t, v), k) == sum_weights_all(w, k) - w[t] + v,
    decreases k,
{
    if t == k - 1 {
        lemma_sum_weights_all_agree(w, w.update(t, v), k - 1);
    } else {
        lemma_sum_weights_all_update(w, t, v, k - 1);
    }
}

pub proof fn lemma_sum_weights_all_agree(a: Seq<u64>, b: Seq<u64>, k: int)
    requires
        forall|j: int| 0 <= j < k ==> a[j] == b[j],
    ensures
        sum_weights_all(a, k) == sum_weights_all(b, k),
    decreases k,
{
    if k > 0 {
        lemma_sum_weights_all_agree(a, b, k - 1);
    }
}

pub proof fn lemma_sum_weights_all_nonneg(w: Seq<u64>, k: int)
    ensures
        sum_weights_all(w, k) >= 0,
    decreases k,
{
    if k > 0 {
        lemma_sum_weights_all_nonneg(w, k - 1);
    }
}

/// A weight at a set flag is at most the selected sum.
pub proof fn lemma_sum_rem_term_le(w: Seq<u64>, rem: Seq<bool>, t: int, k: int)
    requires
        0 <= t < k,
        rem[t],
    ensures
        w[t] <= sum_rem(w, rem, k),
    decreases k,
{
    if t == k - 1 {
        lemma_sum_rem_nonneg(w, rem, k - 1);
    } else {
        lemma_sum_rem_term_le(w, rem, t, k - 1);
    }
}

pub proof fn lemma_sum_rem_update_false(w: Seq<u64>, rem: Seq<bool>, t: int, k: int)
    requires
        0 <= t < k <= rem.len(),
        rem[t],
    ensures
        sum_rem(w, rem.update(t, false), k) == sum_rem(w, rem, k) - w[t],
    decreases k,
{
    if t == k - 1 {
        lemma_sum_rem_unchanged(w, rem, rem.update(t, false), k - 1);
    } else {
        lemma_sum_rem_update_false(w, rem, t, k - 1);
    }
}

pub proof fn lemma_sum_rem_unchanged(w: Seq<u64>, a: Seq<bool>, b: Seq<bool>, k: int)
    requires
        forall|j: int| 0 <= j < k ==> a[j] == b[j],
    ensures
        sum_rem(w, a, k) == sum_rem(w, b, k),
    decreases k,
{
    if k > 0 {
        lemma_sum_rem_unchanged(w, a, b, k - 1);
    }
}

pub proof fn lemma_sum_rem_singleton(w: Seq<u64>, rem: Seq<bool>, c: int, k: int)
    requires
        0 <= c,
        forall|j: int| 0 <= j < k ==> (rem[j] <==> j == c),
    ensures
        sum_rem(w, rem, k) == if c < k { w[c] as int } else { 0int },
    decreases k,
{
    if k > 0 {
        lemma_sum_rem_singleton(w, rem, c, k - 1);
    }
}

/// With every weight at least 1, the selected sum dominates the count.
pub proof fn lemma_sum_rem_ge_count(w: Seq<u64>, rem: Seq<bool>, k: int)
    requires
        forall|j: int| 0 <= j < k ==> w[j] >= 1,
    ensures
        sum_rem(w, rem, k) >= count_rem(rem, k),
    decreases k,
{
    if k > 0 {
        lemma_sum_rem_ge_count(w, rem, k - 1);
    }
}

pub proof fn lemma_sum_wlw_nonneg(w: Seq<u64>, rem: Seq<bool>, k: int)
    ensures
        sum_wlw(w, rem, k) >= 0,
    decreases k,
{
    if k > 0 {
        lemma_sum_wlw_nonneg(w, rem, k - 1);
        if rem[k - 1] {
            assert(w[k - 1] * log2_floor(w[k - 1] as nat) >= 0) by (nonlinear_arith);
        }
    }
}

pub proof fn lemma_sum_wlw_term_le(w: Seq<u64>, rem: Seq<bool>, t: int, k: int)
    requires
        0 <= t < k,
        rem[t],
    ensures
        w[t] * log2_floor(w[t] as nat) <= sum_wlw(w, rem, k),
    decreases k,
{
    if t == k - 1 {
        lemma_sum_wlw_nonneg(w, rem, k - 1);
    } else {
        lemma_sum_wlw_term_le(w, rem, t, k - 1);
        if rem[k - 1] {
            assert(w[k - 1] * log2_floor(w[k - 1] as nat) >= 0) by (nonlinear_arith);
        }
    }
}

pub proof fn lemma_sum_wlw_update_false(w: Seq<u64>, rem: Seq<bool>, t: int, k: int)
    requires
        0 <= t < k <= rem.len(),
        rem[t],
    ensures
        sum_wlw(w, rem.update(t, false), k) == sum_wlw(w, rem, k) - w[t] * log2_floor(w[t] as nat),
    decreases k,
{
    if t == k - 1 {
        lemma_sum_wlw_unchanged(w, rem, rem.update(t, false), k - 1);
    } else {
        lemma_sum_wlw_update_false(w, rem, t, k - 1);
    }
}

pub proof fn lemma_sum_wlw_unchanged(w: Seq<u64>, a: Seq<bool>, b: Seq<bool>, k: int)
    requires
        forall|j: int| 0 <= j < k ==> a[j] == b[j],
    ensures
        sum_wlw(w, a, k) == sum_wlw(w, b, k),
    decreases k,
{
    if k > 0 {
        lemma_sum_wlw_unchanged(w, a, b, k - 1);
    }
}

pub proof fn lemma_sum_wlw_singleton(w: Seq<u64>, rem: Seq<bool>, c: int, k: int)
    requires
        0 <= c,
        forall|j: int| 0 <= j < k ==> (rem[j] <==> j == c),
    ensures
        sum_wlw(w, rem, k) == if c < k { w[c] * log2_floor(w[c] as nat) } else { 0int },
    decreases k,
{
    if k > 0 {
        lemma_sum_wlw_singleton(w, rem, c, k - 1);
    }
}

/// The entropy numerator sum is at most floor-log2 of any bound on the
/// selected weights times the selected weight sum.
pub proof fn lemma_sum_wlw_le_bound(w: Seq<u64>, rem: Seq<bool>, k: int, cap: u64)
    requires
        forall|j: int| 0 <= j < k && rem[j] ==> w[j] <= cap,
    ensures
        sum_wlw(w, rem, k) <= log2_floor(cap as nat) * sum_rem(w, rem, k),
    decreases k,
{
    let lc = log2_floor(cap as nat) as int;
    if k > 0 {
        lemma_sum_wlw_le_bound(w, rem, k - 1, cap);
        if rem[k - 1] {
            let wk = w[k - 1] as int;
            lemma_log2_floor_monotone(w[k - 1] as nat, cap as nat);
            assert(wk * log2_floor(w[k - 1] as nat) <= wk * lc) by (nonlinear_arith)
                requires
                    wk >= 0,
                    log2_floor(w[k - 1] as nat) <= lc,
            ;
            assert(lc * sum_rem(w, rem, k - 1) + wk * lc == lc * (sum_rem(w, rem, k - 1) + wk))
                by (nonlinear_arith);
        }
    } else {
        lemma_sum_rem_nonneg(w, rem, k);
    }
}

/// The second cell state admits no tile the first had already excluded: the
/// same tile list, with the remaining set contained in the first one's.
pub open spec fn narrowed(before: Cell, after: Cell) -> bool {
    &&& after.weights_seq() == before.weights_seq()
    &&& after.remaining_seq().len() == before.remaining_seq().len()
    &&& forall|j: int|
        0 <= j < after.remaining_seq().len() && (#[trigger] after.remaining_seq()[j])
            ==> before.remaining_seq()[j]
}

/// The bookkeeping laws of a well-formed cell: the remaining count counts
/// the remaining flags, and the cached sums are the exact selected sums over
/// the remaining tiles, the entropy one with floor-log2 weights.
pub proof fn lemma_cell_bookkeeping(c: Cell)
    requires
        c.wf(),
    ensures
        c.spec_num_remaining() as int == count_rem(c.remaining_seq(), c.tile_count()),
        c.spec_sum_weights() as int == sum_rem(c.weights_seq(), c.remaining_seq(), c.tile_count()),
        c.spec_sum_wlw() as int == sum_wlw(c.weights_seq(), c.remaining_seq(), c.tile_count()),
{
}

/// In a supported cell every remaining tile is justified from every side.
pub proof fn lemma_supported_cell(c: Cell, j: int, loc: Location)
    requires
        c.supported(),
        0 <= j < c.tile_count(),
        c.remaining_seq()[j],
    ensures
        c.support_at(j, loc) >= 1,
{
}

/// Per-direction counts of the ways a cell can still become one tile. When
/// the count for any one direction reaches zero the tile is no longer
/// possible in the cell.
#[derive(Debug, Clone, Copy, PartialEq, Eq, Structural)]
pub struct WaysToBecomeTile {
    north: usize,
    east: usize,
    south: usize,
    west: usize,
}

impl WaysToBecomeTile {
    pub closed spec fn spec_get(self, loc: Location) -> usize {
        match loc {
            Location::North => self.north,
            Location::East => self.east,
            Location::South => self.south,
            Location::West => self.west,
        }
    }

    pub open spec fn all_zero(self) -> bool {
        forall|loc: Location| #[trigger] self.spec_get(loc) == 0
    }

    pub(crate) fn zero() -> (r: Self)
        ensures
            r.all_zero(),
    {
        WaysToBecomeTile { north: 0, east: 0, south: 0, west: 0 }
    }

    pub(crate) fn get(&self, loc: Location) -> (c: usize)
        ensures
            c == self.spec_get(loc),
    {
        match loc {
            Location::North => self.north,
            Location::East => self.east,
            Location::South => self.south,
            Location::West => self.west,
        }
    }

    pub(crate) fn set(&mut self, loc: Location, v: usize)
        ensures
            final(self).spec_get(loc) == v,
            forall|l2: Location| l2 != loc ==> final(self).spec_get(l2) == old(self).spec_get(l2),
    {
        match loc {
            Location::North => {
                self.north = v;
            },
            Location::East => {
                self.east = v;
            },
            Location::South => {
                self.south = v;
            },
            Location::West => {
                self.west = v;
            },
        }
    }
}

/// The integer numerator of a cell's cached entropy: floor-log2 of the
/// selected weight sum, times that sum, minus the selected sum of weight
/// times floor-log2 of weight. The cell's entropy is this value divided by
/// the weight sum; cells are compared by cross-multiplying the fractions.
pub open spec fn entropy_num(c: Cell) -> int {
    log2_floor(c.spec_sum_weights() as nat) * c.spec_sum_weights() - c.spec_sum_wlw()
}

/// One grid location's superposition: which tiles remain possible, the
/// per-direction support counts that justify each, and the cached sums the
/// entropy is computed from.
pub struct Cell {
    weights: Vec<u64>,
    remaining: Vec<bool>,
    ways_to_become_tile: Vec<WaysToBecomeTile>,
    num_remaining_tiles: usize,
    sum_weights: u64,
    sum_weight_log_weight: u64,
}

impl Cell {
    pub closed spec fn weights_seq(self) -> Seq<u64> {
        self.weights@
    }

    pub closed spec fn remaining_seq(self) -> Seq<bool> {
        self.remaining@
    }

    pub closed spec fn support_len(self) -> int {
        self.ways_to_become_tile@.len() as int
    }

    pub closed spec fn support_at(self, j: int, loc: Location) -> usize {
        self.ways_to_become_tile@[j].spec_get(loc)
    }

    pub closed spec fn support_all_zero(self, j: int) -> bool {
        self.ways_to_become_tile@[j].all_zero()
    }

    pub closed spec fn spec_num_remaining(self) -> usize {
        self.num_remaining_tiles
    }

    pub closed spec fn spec_sum_weights(self) -> u64 {
        self.sum_weights
    }

    pub closed spec fn spec_sum_wlw(self) -> u64 {
        self.sum_weight_log_weight
    }

    pub open spec fn tile_count(self) -> int {
        self.weights_seq().len() as int
    }

    /// The cell's bookkeeping invariant: the remaining count counts the
    /// remaining flags, the cached sums are the exact sums over the remaining
    /// tiles, every weight is positive, the weights as a whole respect the
    /// global cap, and tiles no longer remaining have all support cleared.
    pub open spec fn wf(self) -> bool {
        let t = self.tile_count();
        &&& self.remaining_seq().len() == t
        &&& self.support_len() == t
        &&& forall|j: int| 0 <= j < t ==> (#[trigger] self.weights_seq()[j]) >= 1
        &&& sum_weights_all(self.weights_seq(), t) <= 0x1_0000_0000
        &&& self.spec_num_remaining() as int == count_rem(self.remaining_seq(), t)
        &&& self.spec_sum_weights() as int == sum_rem(self.weights_seq(), self.remaining_seq(), t)
        &&& self.spec_sum_wlw() as int == sum_wlw(self.weights_seq(), self.remaining_seq(), t)
        &&& forall|j: int| 0 <= j < t && !self.remaining_seq()[j] ==> self.support_all_zero(j)
    }

    /// Every remaining tile is justified from all four sides.
    pub open spec fn supported(self) -> bool {
        forall|j: int, loc: Location|
            0 <= j < self.tile_count() && self.remaining_seq()[j]
                ==> #[trigger] self.support_at(j, loc) >= 1
    }

    /// A fresh cell: every tile remains, support counts are the seeds, the
    /// cached sums cover all tiles.
    pub(crate) fn new(ways_to_become_tile: Vec<WaysToBecomeTile>, weights: Vec<u64>) -> (c: Cell)
        requires
            ways_to_become_tile@.len() == weights@.len(),
            forall|j: int| 0 <= j < weights@.len() ==> (#[trigger] weights@[j]) >= 1,
            sum_weights_all(weights@, weights@.len() as int) <= 0x1_0000_0000,
        ensures
            c.wf(),
            c.weights_seq() == weights@,
            c.tile_count() == weights@.len(),
            c.spec_num_remaining() == weights@.len(),
            forall|j: int| 0 <= j < weights@.len() ==> c.remaining_seq()[j],
            forall|j: int, loc: Location|
                0 <= j < weights@.len() ==> #[trigger] c.support_at(j, loc)
                    == ways_to_become_tile@[j].spec_get(loc),
    {
        let t: usize = weights.len();

        let mut remaining: Vec<bool> = Vec::new();
        let mut i: usize = 0;
        while i < t
            invariant
                remaining@.len() == i,
                0 <= i <= t,
                forall|j: int| 0 <= j < i ==> remaining@[j],
            decreases t - i,
        {
            remaining.push(true);
            i += 1;
        }

        let mut sum_weights: u64 = 0;
        let mut sum_weight_log_weight: u64 = 0;
        let mut i2: usize = 0;
        while i2 < t
            invariant
                t == weights@.len(),
                remaining@.len() == t,
                forall|j: int| 0 <= j < t ==> remaining@[j],
                forall|j: int| 0 <= j < t ==> (#[trigger] weights@[j]) >= 1,
                sum_weights_all(weights@, t as int) <= 0x1_0000_0000,
                0 <= i2 <= t,
                sum_weights as int == sum_rem(weights@, remaining@, i2 as int),
                sum_weight_log_weight as int == sum_wlw(weights@, remaining@, i2 as int),
            decreases t - i2,
        {
            let wi: u64 = weights[i2];
            proof {
                lemma_sum_rem_le_all(weights@, remaining@, i2 + 1);
                lemma_sum_weights_all_monotone(weights@, i2 + 1, t as int);
                lemma_sum_weights_all_term_le(weights@, i2 as int, t as int);
                lemma_sum_weights_all_nonneg(weights@, i2 as int);
                lemma_sum_rem_nonneg(weights@, remaining@, i2 as int);
                lemma_log2_floor_small(wi as nat);
                assert(wi * log2_floor(wi as nat) <= 0x20_0000_0000) by (nonlinear_arith)
                    requires
                        wi <= 0x1_0000_0000,
                        log2_floor(wi as nat) <= 32,
                ;
                assert forall|j: int| 0 <= j < i2 + 1 && remaining@[j]
                    implies weights@[j] <= 0x1_0000_0000u64 by {
                    lemma_sum_weights_all_term_le(weights@, j, t as int);
                }
                lemma_sum_wlw_le_bound(weights@, remaining@, i2 + 1, 0x1_0000_0000u64);
                lemma_log2_floor_small(0x1_0000_0000 as nat);
                assert(log2_floor(0x1_0000_0000u64 as nat) * sum_rem(weights@, remaining@, i2 + 1)
                    <= 32 * 0x1_0000_0000) by (nonlinear_arith)
                    requires
                        log2_floor(0x1_0000_0000u64 as nat) <= 32,
                        0 <= sum_rem(weights@, remaining@, i2 + 1) <= 0x1_0000_0000,
                ;
            }
            let lw: u64 = log2_floor_exec(wi);
            sum_weights = sum_weights + wi;
            sum_weight_log_weight = sum_weight_log_weight + wi * lw;
            i2 += 1;
        }

        let c = Cell {
            weights,
            remaining,
            ways_to_become_tile,
            num_remaining_tiles: t,
            sum_weights,
            sum_weight_log_weight,
        };
        proof {
            lemma_count_rem_all_true(c.remaining@, t as int);
        }
        c
    }

    /// No tile remains: the superposition is contradictory.
    pub fn invalid(&self) -> (r: bool)
        ensures
            r == (self.spec_num_remaining() == 0),
    {
        self.num_remaining_tiles == 0
    }

    /// Exactly one tile remains.
    pub fn collapsed(&self) -> (r: bool)
        ensures
            r == (self.spec_num_remaining() == 1),
    {
        self.num_remaining_tiles == 1
    }

    /// Two or more tiles remain.
    pub fn uncollapsed(&self) -> (r: bool)
        ensures
            r == (self.spec_num_remaining() >= 2),
    {
        self.num_remaining_tiles >= 2
    }

    pub fn num_remaining(&self) -> (r: usize)
        ensures
            r == self.spec_num_remaining(),
    {
        self.num_remaining_tiles
    }

    pub fn sum_weights(&self) -> (r: u64)
        ensures
            r == self.spec_sum_weights(),
    {
        self.sum_weights
    }

    /// The integer numerator of this cell's entropy; the entropy itself is
    /// this value divided by the selected weight sum.
    pub fn entropy(&self) -> (e: u64)
        requires
            self.wf(),
            self.spec_num_remaining() >= 1,
        ensures
            e as int == entropy_num(*self),
    {
        let t: usize = self.weights.len();
        proof {
            lemma_sum_rem_le_all(self.weights@, self.remaining@, t as int);
            lemma_sum_rem_nonneg(self.weights@, self.remaining@, t as int);
            lemma_log2_floor_small(self.sum_weights as nat);
            assert forall|j: int| 0 <= j < t && self.remaining@[j]
                implies self.weights@[j] <= self.sum_weights by {
                lemma_sum_rem_term_le(self.weights@, self.remaining@, j, t as int);
            }
            lemma_sum_wlw_le_bound(self.weights@, self.remaining@, t as int, self.sum_weights);
            assert(log2_floor(self.sum_weights as nat) * (self.sum_weights as int)
                <= 32 * 0x1_0000_0000) by (nonlinear_arith)
                requires
                    log2_floor(self.sum_weights as nat) <= 32,
                    0 <= self.sum_weights as int <= 0x1_0000_0000,
            ;
        }
        let l: u64 = log2_floor_exec(self.sum_weights);
        l * self.sum_weights - self.sum_weight_log_weight
    }

    /// The single tile of a collapsed cell; None while the cell is anything
    /// else.
    pub fn choosen_tile(&self) -> (r: Option<TileId>)
        requires
            self.wf(),
        ensures
            (self.spec_num_remaining() == 1) == (r is Some),
            r matches Some(tid) ==> {
                &&& (tid.0 as int) < self.tile_count()
                &&& self.remaining_seq()[tid.0 as int]
                &&& forall|j: int|
                    0 <= j < self.tile_count() && j != tid.0 ==> !self.remaining_seq()[j]
            },
    {
        if self.num_remaining_tiles != 1 {
            return None;
        }
        let t: usize = self.remaining.len();
        let mut i: usize = 0;
        while i < t
            invariant
                t == self.remaining@.len(),
                t == self.weights@.len(),
                self.num_remaining_tiles == 1,
                count_rem(self.remaining@, t as int) == 1,
                0 <= i <= t,
                forall|j: int| 0 <= j < i ==> !self.remaining@[j],
                count_rem(self.remaining@, i as int) == 0,
            decreases t - i,
        {
            if self.remaining[i] {
                proof {
                    lemma_count_rem_one_unique(self.remaining@, i as int, t as int);
                }
                return Some(TileId(i));
            }
            i += 1;
        }
        proof {
            assert(count_rem(self.remaining@, t as int) == 0);
        }
        None
    }

    /// The ids of the tiles still possible here, in increasing order.
    pub fn remaining_tile_ids(&self) -> (r: Vec<TileId>)
        requires
            self.wf(),
        ensures
            r@.len() == self.spec_num_remaining(),
            forall|k: int|
                0 <= k < r@.len() ==> ((#[trigger] r@[k]).0 as int) < self.tile_count()
                    && self.remaining_seq()[r@[k].0 as int],
            forall|j: int|
                0 <= j < self.tile_count() && self.remaining_seq()[j]
                    ==> exists|k: int| 0 <= k < r@.len() && (#[trigger] r@[k]).0 == j,
            forall|k1: int, k2: int| 0 <= k1 < k2 < r@.len() ==> r@[k1].0 < r@[k2].0,
    {
        let t: usize = self.remaining.len();
        let mut out: Vec<TileId> = Vec::new();
        let mut i: usize = 0;
        while i < t
            invariant
                t == self.remaining@.len(),
                t == self.weights@.len(),
                self.num_remaining_tiles as int == count_rem(self.remaining@, t as int),
                0 <= i <= t,
                out@.len() == count_rem(self.remaining@, i as int),
                forall|k: int|
                    0 <= k < out@.len() ==> ((#[trigger] out@[k]).0 as int) < i
                        && self.remaining@[out@[k].0 as int],
                forall|j: int|
                    0 <= j < i && self.remaining@[j]
                        ==> exists|k: int| 0 <= k < out@.len() && (#[trigger] out@[k]).0 == j,
                forall|k1: int, k2: int| 0 <= k1 < k2 < out@.len() ==> out@[k1].0 < out@[k2].0,
            decreases t - i,
        {
            if self.remaining[i] {
                let ghost old_out = out@;
                out.push(TileId(i));
                proof {
                    assert forall|j: int| 0 <= j < i + 1 && self.remaining@[j]
                        implies exists|k: int|
                            0 <= k < out@.len() && (#[trigger] out@[k]).0 == j by {
                        if j == i {
                            assert(out@[out@.len() - 1].0 == i);
                        } else {
                            let k = choose|k: int|
                                0 <= k < old_out.len() && (#[trigger] old_out[k]).0 == j;
                            assert(out@[k].0 == j);
                        }
                    }
                }
            }
            i += 1;
        }
        proof {
            lemma_count_rem_bounds(self.remaining@, t as int);
        }
        out
    }

    /// Collapse the superposition to a single tile, drawn with probability
    /// proportional to weight among the remaining tiles. Returns the ids of
    /// every other previously remaining tile, in increasing order; each is to
    /// be propagated as an elimination. The supports of the returned tiles
    /// are cleared; the chosen tile keeps its supports.
    pub(crate) fn collapse(&mut self) -> (removed: Vec<TileId>)
        requires
            old(self).wf(),
            old(self).spec_num_remaining() >= 1,
        ensures
            final(self).wf(),
            final(self).weights_seq() == old(self).weights_seq(),
            final(self).tile_count() == old(self).tile_count(),
            final(self).spec_num_remaining() == 1,
            forall|j: int|
                0 <= j < old(self).tile_count() && final(self).remaining_seq()[j]
                    ==> old(self).remaining_seq()[j],
            old(self).supported() ==> final(self).supported(),
            narrowed(*old(self), *final(self)),
            removed@.len() + 1 == old(self).spec_num_remaining(),
            forall|k: int|
                0 <= k < removed@.len() ==> ((#[trigger] removed@[k]).0 as int)
                    < old(self).tile_count()
                    && old(self).remaining_seq()[removed@[k].0 as int]
                    && !final(self).remaining_seq()[removed@[k].0 as int],
            forall|j: int|
                0 <= j < old(self).tile_count() && old(self).remaining_seq()[j]
                    && !final(self).remaining_seq()[j] ==> exists|k: int|
                    0 <= k < removed@.len() && (#[trigger] removed@[k]).0 == j,
            forall|k1: int, k2: int|
                0 <= k1 < k2 < removed@.len() ==> removed@[k1].0 < removed@[k2].0,
    {
        let t: usize = self.weights.len();
        let total: u64 = self.sum_weights;
        proof {
            lemma_sum_rem_ge_count(self.weights@, self.remaining@, t as int);
        }
        let pick: u64 = random_below(total);

        // Find the chosen tile: the one whose cumulative weight range among
        // the remaining tiles contains the draw.
        let mut chosen: usize = 0;
        let mut acc: u64 = 0;
        let mut i: usize = 0;
        loop
            invariant
                *self == *old(self),
                old(self).wf(),
                t == self.weights@.len(),
                t == self.remaining@.len(),
                total == self.sum_weights,
                pick < total,
                0 <= i <= t,
                acc as int == sum_rem(self.weights@, self.remaining@, i as int),
                acc <= pick,
            ensures
                *self == *old(self),
                chosen < t,
                self.remaining@[chosen as int],
            decreases t - i,
        {
            if i == t {
                proof {
                    assert(acc as int == sum_rem(self.weights@, self.remaining@, t as int));
                    assert(acc == total);
                    assert(false);
                }
            }
            if self.remaining[i] {
                let wi: u64 = self.weights[i];
                proof {
                    lemma_sum_rem_le_all(self.weights@, self.remaining@, t as int);
                    lemma_sum_weights_all_term_le(self.weights@, i as int, t as int);
                }
                if acc + wi > pick {
                    chosen = i;
                    break;
                }
                acc = acc + wi;
            }
            i += 1;
        }

        // Clear the supports of, and report, every other remaining tile.
        let mut removed: Vec<TileId> = Vec::new();
        let mut j: usize = 0;
        while j < t
            invariant
                old(self).wf(),
                t == self.weights@.len(),
                t == self.remaining@.len(),
                t == self.ways_to_become_tile@.len(),
                t == old(self).weights@.len(),
                self.weights@ == old(self).weights@,
                self.remaining@ == old(self).remaining@,
                self.num_remaining_tiles == old(self).num_remaining_tiles,
                self.sum_weights == old(self).sum_weights,
                self.sum_weight_log_weight == old(self).sum_weight_log_weight,
                chosen < t,
                old(self).remaining@[chosen as int],
                0 <= j <= t,
                forall|q: int|
                    0 <= q < j && q != chosen && old(self).remaining@[q]
                        ==> (#[trigger] self.ways_to_become_tile@[q]).all_zero(),
                forall|q: int|
                    0 <= q < t && (j <= q || q == chosen || !old(self).remaining@[q])
                        ==> #[trigger] self.ways_to_become_tile@[q]
                            == old(self).ways_to_become_tile@[q],
                removed@.len() as int == count_rem(old(self).remaining@, j as int) - (
                if chosen < j {
                    1int
                } else {
                    0int
                }),
                forall|k: int|
                    0 <= k < removed@.len() ==> ((#[trigger] removed@[k]).0 as int) < j
                        && removed@[k].0 != chosen && old(self).remaining@[removed@[k].0 as int],
                forall|q: int|
                    0 <= q < j && q != chosen && old(self).remaining@[q] ==> exists|k: int|
                        0 <= k < removed@.len() && (#[trigger] removed@[k]).0 == q,
                forall|k1: int, k2: int|
                    0 <= k1 < k2 < removed@.len() ==> removed@[k1].0 < removed@[k2].0,
            decreases t - j,
        {
            if j != chosen && self.remaining[j] {
                let z = WaysToBecomeTile::zero();
                self.ways_to_become_tile.set(j, z);
                let ghost old_removed = removed@;
                removed.push(TileId(j));
                proof {
                    assert forall|q: int| 0 <= q < j + 1 && q != chosen && old(self).remaining@[q]
                        implies exists|k: int|
                            0 <= k < removed@.len() && (#[trigger] removed@[k]).0 == q by {
                        if q == j {
                            assert(removed@[removed@.len() - 1].0 == j);
                        } else {
                            let k = choose|k: int|
                                0 <= k < old_removed.len() && (#[trigger] old_removed[k]).0 == q;
                            assert(removed@[k].0 == q);
                        }
                    }
                }
            }
            j += 1;
        }

        // Only the chosen tile remains.
        let mut new_remaining: Vec<bool> = Vec::new();
        let mut q2: usize = 0;
        while q2 < t
            invariant
                new_remaining@.len() == q2,
                0 <= q2 <= t,
                forall|p: int| 0 <= p < q2 ==> ((#[trigger] new_remaining@[p]) <==> p == chosen),
            decreases t - q2,
        {
            new_remaining.push(q2 == chosen);
            q2 += 1;
        }
        self.remaining = new_remaining;
        self.num_remaining_tiles = 1;

        let wc: u64 = self.weights[chosen];
        proof {
            lemma_sum_weights_all_term_le(self.weights@, chosen as int, t as int);
            lemma_log2_floor_small(wc as nat);
            assert(wc * log2_floor(wc as nat) <= 0x20_0000_0000) by (nonlinear_arith)
                requires
                    wc <= 0x1_0000_0000,
                    log2_floor(wc as nat) <= 32,
            ;
        }
        let lw: u64 = log2_floor_exec(wc);
        self.sum_weights = wc;
        self.sum_weight_log_weight = wc * lw;

        proof {
            lemma_count_rem_singleton(self.remaining@, chosen as int, t as int);
            lemma_sum_rem_singleton(self.weights@, self.remaining@, chosen as int, t as int);
            lemma_sum_wlw_singleton(self.weights@, self.remaining@, chosen as int, t as int);
            assert forall|q: int| 0 <= q < t && !self.remaining@[q]
                implies self.support_all_zero(q) by {
                assert(q != chosen);
                if old(self).remaining@[q] {
                    assert(self.ways_to_become_tile@[q].all_zero());
                } else {
                    assert(self.ways_to_become_tile@[q] == old(self).ways_to_become_tile@[q]);
                    assert(old(self).support_all_zero(q));
                }
            }
            assert(self.wf());
            assert(old(self).supported() ==> self.supported()) by {
                if old(self).supported() {
                    assert forall|q: int, loc: Location|
                        0 <= q < self.tile_count() && self.remaining_seq()[q]
                        implies #[trigger] self.support_at(q, loc) >= 1 by {
                        assert(q == chosen);
                        assert(self.ways_to_become_tile@[chosen as int]
                            == old(self).ways_to_become_tile@[chosen as int]);
                        assert(old(self).support_at(q, loc) >= 1);
                    }
                }
            }
        }
        removed
    }

    /// Record that the neighbour in direction removed_location has eliminated
    /// the given tile: decrement that tile's support count there. A count
    /// already at zero is left alone (redundant events are legitimate); a
    /// count falling from one to zero eliminates the tile here, and the tile
    /// is returned so the wave can cascade.
    pub(crate) fn removed_neighbor_tile(&mut self, removed: TileId, removed_location: Location)
        -> (out: Option<TileId>)
        requires
            old(self).wf(),
            (removed.0 as int) < old(self).tile_count(),
        ensures
            final(self).wf(),
            final(self).weights_seq() == old(self).weights_seq(),
            final(self).tile_count() == old(self).tile_count(),
            old(self).supported() ==> final(self).supported(),
            narrowed(*old(self), *final(self)),
            ({
                let s = old(self).support_at(removed.0 as int, removed_location);
                &&& (s == 0 ==> out is None && *final(self) == *old(self))
                &&& (s >= 2 ==> out is None
                    && final(self).remaining_seq() == old(self).remaining_seq()
                    && final(self).spec_num_remaining() == old(self).spec_num_remaining()
                    && final(self).spec_sum_weights() == old(self).spec_sum_weights()
                    && final(self).spec_sum_wlw() == old(self).spec_sum_wlw()
                    && final(self).support_at(removed.0 as int, removed_location) == s - 1
                    && (forall|q: int, loc: Location|
                        0 <= q < old(self).tile_count()
                            && !(q == removed.0 && loc == removed_location)
                            ==> #[trigger] final(self).support_at(q, loc)
                                == old(self).support_at(q, loc)))
                &&& (s == 1 ==> out == Some(removed)
                    && old(self).remaining_seq()[removed.0 as int]
                    && final(self).remaining_seq()
                        == old(self).remaining_seq().update(removed.0 as int, false)
                    && final(self).spec_num_remaining() + 1 == old(self).spec_num_remaining()
                    && (forall|q: int, loc: Location|
                        0 <= q < old(self).tile_count() && q != removed.0
                            ==> #[trigger] final(self).support_at(q, loc)
                                == old(self).support_at(q, loc)))
            }),
    {
        let idx: usize = removed.0;
        let t: usize = self.weights.len();
        let s: usize = self.ways_to_become_tile[idx].get(removed_location);
        if s == 0 {
            return None;
        }
        // A positive support count means the tile still remains here: tiles
        // that have left this cell have all their supports cleared.
        proof {
            if !self.remaining@[idx as int] {
                assert(self.support_all_zero(idx as int));
                assert(self.support_at(idx as int, removed_location) == 0);
            }
            assert(self.remaining@[idx as int]);
        }
        if s >= 2 {
            let mut row: WaysToBecomeTile = self.ways_to_become_tile[idx];
            row.set(removed_location, s - 1);
            self.ways_to_become_tile.set(idx, row);
            proof {
                assert forall|q: int| 0 <= q < t && !self.remaining@[q]
                    implies self.support_all_zero(q) by {
                    assert(q != idx);
                    assert(self.ways_to_become_tile@[q] == old(self).ways_to_become_tile@[q]);
                    assert(old(self).support_all_zero(q));
                }
                assert(self.wf());
                assert(old(self).supported() ==> self.supported()) by {
                    if old(self).supported() {
                        assert forall|q: int, loc: Location|
                            0 <= q < self.tile_count() && self.remaining_seq()[q]
                            implies #[trigger] self.support_at(q, loc) >= 1 by {
                            assert(old(self).support_at(q, loc) >= 1);
                        }
                    }
                }
            }
            return None;
        }

        // The last justification from that side is gone: the tile leaves.
        proof {
            lemma_count_rem_ge_one(old(self).remaining@, idx as int, t as int);
            lemma_count_rem_update_false(old(self).remaining@, idx as int, t as int);
            lemma_sum_rem_term_le(old(self).weights@, old(self).remaining@, idx as int, t as int);
            lemma_sum_rem_update_false(old(self).weights@, old(self).remaining@, idx as int, t as int);
            lemma_sum_wlw_term_le(old(self).weights@, old(self).remaining@, idx as int, t as int);
            lemma_sum_wlw_update_false(old(self).weights@, old(self).remaining@, idx as int, t as int);
            lemma_sum_rem_le_all(old(self).weights@, old(self).remaining@, t as int);
            lemma_sum_weights_all_term_le(old(self).weights@, idx as int, t as int);
        }
        let w: u64 = self.weights[idx];
        proof {
            lemma_log2_floor_small(w as nat);
            assert(w * log2_floor(w as nat) <= 0x20_0000_0000) by (nonlinear_arith)
                requires
                    w <= 0x1_0000_0000,
                    log2_floor(w as nat) <= 32,
            ;
        }
        let lw: u64 = log2_floor_exec(w);
        self.ways_to_become_tile.set(idx, WaysToBecomeTile::zero());
        self.remaining.set(idx, false);
        self.num_remaining_tiles = self.num_remaining_tiles - 1;
        self.sum_weights = self.sum_weights - w;
        self.sum_weight_log_weight = self.sum_weight_log_weight - w * lw;
        proof {
            assert forall|q: int| 0 <= q < t && !self.remaining@[q]
                implies self.support_all_zero(q) by {
                if q == idx {
                    assert(self.ways_to_become_tile@[idx as int].all_zero());
                } else {
                    assert(self.ways_to_become_tile@[q] == old(self).ways_to_become_tile@[q]);
                    assert(!old(self).remaining@[q]);
                    assert(old(self).support_all_zero(q));
                }
            }
            assert(self.wf());
            assert(old(self).supported() ==> self.supported()) by {
                if old(self).supported() {
                    assert forall|q: int, loc: Location|
                        0 <= q < self.tile_count() && self.remaining_seq()[q]
                        implies #[trigger] self.support_at(q, loc) >= 1 by {
                        assert(q != idx);
                        assert(old(self).support_at(q, loc) >= 1);
                    }
                }
            }
        }
        Some(removed)
    }
}

} // verus!
