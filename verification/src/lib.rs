use std::collections::VecDeque;

use vstd::arithmetic::div_mod::lemma_fundamental_div_mod_converse;
use vstd::prelude::*;

pub mod cells;
pub mod extract;
pub mod numeric;
pub mod patterns;
mod rng;
pub mod slots;
pub mod tiles;

use crate::cells::{sum_weights_all, Cell, WaysToBecomeTile};
use crate::numeric::{lemma_grid_decode, lemma_grid_encode};
use crate::patterns::Pattern;
use crate::rng::random_below;
use crate::slots::Location;
use crate::tiles::{RemovedTile, Tile, TileId};

verus! {

/// The weights of a tile list, index for index.
pub open spec fn weights_of(tiles: Seq<Tile>) -> Seq<u64> {
    Seq::new(tiles.len(), |i: int| tiles[i].spec_weight())
}

/// How many tiles among the first k are compatible with tile t on its loc
/// side: the seed for t's support count in direction loc.
pub open spec fn compat_count(tiles: Seq<Tile>, t: int, loc: Location, k: int) -> int
    decreases k,
{
    if k <= 0 {
        0
    } else {
        compat_count(tiles, t, loc, k - 1) + if Pattern::compatible_spec(
            tiles[t].spec_pattern(),
            tiles[k - 1].spec_pattern(),
            loc,
        ) {
            1int
        } else {
            0int
        }
    }
}

/// Number of collapsed cells among the first k.
pub open spec fn count_collapsed(cells: Seq<Cell>, k: int) -> int
    decreases k,
{
    if k <= 0 {
        0
    } else {
        count_collapsed(cells, k - 1) + if cells[k - 1].spec_num_remaining() == 1 {
            1int
        } else {
            0int
        }
    }
}

/// Sum of the remaining-tile counts of the first k cells.
pub open spec fn total_remaining(cells: Seq<Cell>, k: int) -> int
    decreases k,
{
    if k <= 0 {
        0
    } else {
        total_remaining(cells, k - 1) + cells[k - 1].spec_num_remaining()
    }
}

pub proof fn lemma_count_collapsed_bounds(cells: Seq<Cell>, k: int)
    ensures
        0 <= count_collapsed(cells, k) <= if k <= 0 { 0int } else { k },
    decreases k,
{
    if k > 0 {
        lemma_count_collapsed_bounds(cells, k - 1);
    }
}

/// Cells that all hold the same number of tiles are either all collapsed or
/// none of them is.
pub proof fn lemma_count_collapsed_uniform(cells: Seq<Cell>, k: int, m: int)
    requires
        forall|j: int| 0 <= j < k ==> (#[trigger] cells[j]).spec_num_remaining() == m,
    ensures
        count_collapsed(cells, k) == if m == 1 && k > 0 { k } else { 0int },
    decreases k,
{
    if k > 0 {
        lemma_count_collapsed_uniform(cells, k - 1, m);
    }
}

/// Replacing one cell changes the collapsed count by the difference of the
/// two collapse indicators.
pub proof fn lemma_count_collapsed_update(cells: Seq<Cell>, i: int, c: Cell, k: int)
    requires
        0 <= i < k <= cells.len(),
    ensures
        count_collapsed(cells.update(i, c), k) == count_collapsed(cells, k) + (
        if c.spec_num_remaining() == 1 {
            1int
        } else {
            0int
        }) - (
        if cells[i].spec_num_remaining() == 1 {
            1int
        } else {
            0int
        }),
    decreases k,
{
    if i == k - 1 {
        lemma_count_collapsed_agree(cells, cells.update(i, c), k - 1);
    } else {
        lemma_count_collapsed_update(cells, i, c, k - 1);
    }
}

pub proof fn lemma_count_collapsed_agree(a: Seq<Cell>, b: Seq<Cell>, k: int)
    requires
        forall|j: int| 0 <= j < k ==> a[j] == b[j],
    ensures
        count_collapsed(a, k) == count_collapsed(b, k),
    decreases k,
{
    if k > 0 {
        lemma_count_collapsed_agree(a, b, k - 1);
    }
}

/// A full collapsed count means every cell is collapsed.
pub proof fn lemma_count_collapsed_full(cells: Seq<Cell>, k: int)
    requires
        count_collapsed(cells, k) == k,
        k >= 0,
    ensures
        forall|j: int| 0 <= j < k ==> (#[trigger] cells[j]).spec_num_remaining() == 1,
    decreases k,
{
    if k > 0 {
        lemma_count_collapsed_bounds(cells, k - 1);
        lemma_count_collapsed_full(cells, k - 1);
    }
}

/// Where not everything is collapsed and no cell is empty, some cell still
/// holds two or more tiles.
pub proof fn lemma_exists_uncollapsed(cells: Seq<Cell>, k: int)
    requires
        count_collapsed(cells, k) < k,
        forall|j: int| 0 <= j < k ==> (#[trigger] cells[j]).spec_num_remaining() >= 1,
    ensures
        exists|j: int| 0 <= j < k && (#[trigger] cells[j]).spec_num_remaining() >= 2,
    decreases k,
{
    if k > 0 {
        if cells[k - 1].spec_num_remaining() >= 2 {
        } else {
            lemma_count_collapsed_bounds(cells, k - 1);
            lemma_exists_uncollapsed(cells, k - 1);
        }
    }
}

pub proof fn lemma_total_remaining_update(cells: Seq<Cell>, i: int, c: Cell, k: int)
    requires
        0 <= i < k <= cells.len(),
    ensures
        total_remaining(cells.update(i, c), k) == total_remaining(cells, k)
            + c.spec_num_remaining() - cells[i].spec_num_remaining(),
    decreases k,
{
    if i == k - 1 {
        lemma_total_remaining_agree(cells, cells.update(i, c), k - 1);
    } else {
        lemma_total_remaining_update(cells, i, c, k - 1);
    }
}

pub proof fn lemma_total_remaining_agree(a: Seq<Cell>, b: Seq<Cell>, k: int)
    requires
        forall|j: int| 0 <= j < k ==> a[j] == b[j],
    ensures
        total_remaining(a, k) == total_remaining(b, k),
    decreases k,
{
    if k > 0 {
        lemma_total_remaining_agree(a, b, k - 1);
    }
}

pub proof fn lemma_total_remaining_nonneg(cells: Seq<Cell>, k: int)
    requires
        forall|j: int| 0 <= j < k ==> (#[trigger] cells[j]).spec_num_remaining() >= 0,
    ensures
        total_remaining(cells, k) >= 0,
    decreases k,
{
    if k > 0 {
        lemma_total_remaining_nonneg(cells, k - 1);
    }
}

/// Every cell of the second grid admits only tiles the matching cell of the
/// first grid still admitted: observation and propagation only narrow.
pub open spec fn cells_narrowed(before: Seq<Cell>, after: Seq<Cell>) -> bool {
    &&& after.len() == before.len()
    &&& forall|i: int|
        0 <= i < after.len() ==> crate::cells::narrowed(before[i], #[trigger] after[i])
}

pub proof fn lemma_cells_narrowed_trans(a: Seq<Cell>, b: Seq<Cell>, c: Seq<Cell>)
    requires
        cells_narrowed(a, b),
        cells_narrowed(b, c),
    ensures
        cells_narrowed(a, c),
{
    assert forall|i: int| 0 <= i < c.len()
        implies crate::cells::narrowed(a[i], #[trigger] c[i]) by {
        assert(crate::cells::narrowed(a[i], b[i]));
        assert(crate::cells::narrowed(b[i], c[i]));
    }
}

/// Entropy order between two cells, by cross-multiplied fractions: the
/// entropy of a cell is entropy_num divided by its selected weight sum.
pub open spec fn entropy_le(a: Cell, b: Cell) -> bool {
    crate::cells::entropy_num(a) * b.spec_sum_weights()
        <= crate::cells::entropy_num(b) * a.spec_sum_weights()
}

/// Transitivity of the cross-multiplied entropy order, for positive weight
/// sums.
pub proof fn lemma_entropy_le_trans(a: Cell, b: Cell, c: Cell)
    requires
        a.spec_sum_weights() >= 1,
        b.spec_sum_weights() >= 1,
        c.spec_sum_weights() >= 1,
        entropy_le(a, b),
        entropy_le(b, c),
    ensures
        entropy_le(a, c),
{
    let ka = crate::cells::entropy_num(a);
    let kb = crate::cells::entropy_num(b);
    let kc = crate::cells::entropy_num(c);
    let wa = a.spec_sum_weights() as int;
    let wb = b.spec_sum_weights() as int;
    let wc = c.spec_sum_weights() as int;
    assert(ka * wb * wc <= kb * wa * wc) by (nonlinear_arith)
        requires
            ka * wb <= kb * wa,
            wc >= 1,
    ;
    assert(kb * wc * wa <= kc * wb * wa) by (nonlinear_arith)
        requires
            kb * wc <= kc * wb,
            wa >= 1,
    ;
    assert(kb * wa * wc == kb * wc * wa) by (nonlinear_arith);
    assert(kc * wb * wa == kc * wa * wb) by (nonlinear_arith);
    assert(ka * wb * wc == ka * wc * wb) by (nonlinear_arith);
    assert(ka * wc * wb <= kc * wa * wb);
    assert(ka * wc <= kc * wa) by (nonlinear_arith)
        requires
            ka * wc * wb <= kc * wa * wb,
            wb >= 1,
    ;
}

/// The output pixel holding sample j of the square block at the given grid
/// index, when blocks of the given side are laid out cols per row with a
/// one-pixel border around each block.
pub fn padded_block_pixel(index: usize, j: usize, cols: usize, rows: usize, side: usize) -> (xy: (
    usize,
    usize,
))
    requires
        cols >= 1,
        rows >= 1,
        side >= 1,
        (index as int) < cols * rows,
        (j as int) < side * side,
        cols * (side + 2) <= usize::MAX,
        rows * (side + 2) <= usize::MAX,
    ensures
        xy.0 as int == (index as int % (cols as int)) * (side + 2) + 1 + (j as int % (side as int)),
        xy.1 as int == (index as int / (cols as int)) * (side + 2) + 1 + (j as int / (side as int)),
        (xy.0 as int) < cols * (side + 2),
        (xy.1 as int) < rows * (side + 2),
{
    proof {
        lemma_grid_decode(cols as int, rows as int, index as int);
        lemma_grid_decode(side as int, side as int, j as int);
        assert(side + 2 <= usize::MAX && (index as int % (cols as int)) * ((side + 2) as int)
            <= (cols - 1) * ((side + 2) as int)) by (nonlinear_arith)
            requires
                cols >= 1,
                side >= 1,
                cols * (side + 2) <= usize::MAX,
                0 <= index as int % (cols as int) <= cols - 1,
        ;
        assert((cols - 1) * ((side + 2) as int) <= cols * (side + 2)) by (nonlinear_arith)
            requires
                cols >= 1,
                side >= 1,
        ;
        assert((index as int % (cols as int)) * ((side + 2) as int) + 1 + (j as int % (side as int))
            < cols * (side + 2)) by (nonlinear_arith)
            requires
                0 <= index as int % (cols as int) <= cols - 1,
                0 <= j as int % (side as int) <= side - 1,
                cols >= 1,
                side >= 1,
        ;
        assert((index as int / (cols as int)) * ((side + 2) as int) + 1 + (j as int / (side as int))
            < rows * (side + 2)) by (nonlinear_arith)
            requires
                0 <= index as int / (cols as int) <= rows - 1,
                0 <= j as int / (side as int) <= side - 1,
                rows >= 1,
                side >= 1,
        ;
    }
    let col: usize = index % cols;
    let row: usize = index / cols;
    let lx: usize = j % side;
    let ly: usize = j / side;
    (col * (side + 2) + 1 + lx, row * (side + 2) + 1 + ly)
}

/// How many tiles in the list are compatible with tiles[a] on its loc side.
fn count_compat(tiles: &Vec<Tile>, a: usize, loc: Location) -> (cnt: usize)
    requires
        forall|i: int| 0 <= i < tiles@.len() ==> (#[trigger] tiles@[i]).wf(),
        (a as int) < tiles@.len(),
    ensures
        cnt as int == compat_count(tiles@, a as int, loc, tiles@.len() as int),
{
    let t: usize = tiles.len();
    let mut cnt: usize = 0;
    let mut b: usize = 0;
    while b < t
        invariant
            t == tiles@.len(),
            forall|i: int| 0 <= i < t ==> (#[trigger] tiles@[i]).wf(),
            (a as int) < t,
            0 <= b <= t,
            cnt as int == compat_count(tiles@, a as int, loc, b as int),
            cnt <= b,
        decreases t - b,
    {
        if tiles[a].is_compatible(&tiles[b], loc) {
            cnt += 1;
        }
        b += 1;
    }
    cnt
}

fn copy_support_rows(rows: &Vec<WaysToBecomeTile>) -> (r: Vec<WaysToBecomeTile>)
    ensures
        r@ == rows@,
{
    let len: usize = rows.len();
    let mut out: Vec<WaysToBecomeTile> = Vec::new();
    let mut i: usize = 0;
    while i < len
        invariant
            len == rows@.len(),
            out@.len() == i,
            0 <= i <= len,
            forall|k: int| 0 <= k < i ==> out@[k] == rows@[k],
        decreases len - i,
    {
        out.push(rows[i]);
        i += 1;
    }
    proof {
        assert(out@ =~= rows@);
    }
    out
}

fn copy_weights(weights: &Vec<u64>) -> (r: Vec<u64>)
    ensures
        r@ == weights@,
{
    let len: usize = weights.len();
    let mut out: Vec<u64> = Vec::new();
    let mut i: usize = 0;
    while i < len
        invariant
            len == weights@.len(),
            out@.len() == i,
            0 <= i <= len,
            forall|k: int| 0 <= k < i ==> out@[k] == weights@[k],
        decreases len - i,
    {
        out.push(weights[i]);
        i += 1;
    }
    proof {
        assert(out@ =~= weights@);
    }
    out
}

fn cell_mut(cells: &mut Vec<Cell>, i: usize) -> (c: &mut Cell)
    requires
        (i as int) < old(cells)@.len(),
    ensures
        *c == old(cells)@[i as int],
        final(cells)@ == old(cells)@.update(i as int, *final(c)),
{
    &mut cells[i]
}

/// In a well-formed wave the collapse counter counts exactly the cells with
/// one remaining tile.
pub proof fn lemma_wave_collapse_counter(w: Wave)
    requires
        w.wf(),
    ensures
        w.spec_num_collapsed() == count_collapsed(w.cells_seq(), w.cell_count()),
{
}

/// Every queued propagation event names a real cell and a real tile.
spec fn queue_wf(q: Seq<RemovedTile>, n_cells: int, n_tiles: int) -> bool {
    forall|k: int|
        0 <= k < q.len() ==> ((#[trigger] q[k]).cell_index as int) < n_cells && (
        q[k].tile.0 as int) < n_tiles
}

/// A cell no better than a second one is no better than anything the second
/// one is no better than: the contrapositive form, for a strict bound.
pub proof fn lemma_entropy_le_lt_trans(a: Cell, b: Cell, c: Cell)
    requires
        a.spec_sum_weights() >= 1,
        b.spec_sum_weights() >= 1,
        c.spec_sum_weights() >= 1,
        entropy_le(a, b),
        !entropy_le(c, b),
    ensures
        !entropy_le(c, a),
{
    if entropy_le(c, a) {
        lemma_entropy_le_trans(c, a, b);
    }
}

/// What `Wave::collapse` can report: observation of an already finished
/// wave, or a cell whose remaining set became empty during propagation.
#[derive(Debug, Clone, Copy, PartialEq, Eq, Structural)]
pub enum WaveCollapseError {
    InvalidCell(usize),
    AlreadyCollapsed,
}

/// The toroidal grid of cells under collapse, with its propagation
/// bookkeeping.
pub struct Wave {
    cells: Vec<Cell>,
    x_cells: usize,
    y_cells: usize,
    size: usize,
    num_collapsed: usize,
}

impl Wave {
    pub closed spec fn cells_seq(self) -> Seq<Cell> {
        self.cells@
    }

    pub closed spec fn grid_x(self) -> int {
        self.x_cells as int
    }

    pub closed spec fn grid_y(self) -> int {
        self.y_cells as int
    }

    pub closed spec fn pattern_size(self) -> int {
        self.size as int
    }

    pub closed spec fn spec_num_collapsed(self) -> int {
        self.num_collapsed as int
    }

    pub open spec fn cell_count(self) -> int {
        self.cells_seq().len() as int
    }

    pub open spec fn tile_count(self) -> int {
        if self.cell_count() > 0 {
            self.cells_seq()[0].tile_count()
        } else {
            0
        }
    }

    /// The wave's invariant: a nonempty toroidal grid of well-formed cells
    /// over one shared tile list, no cell empty, and the collapse counter
    /// equal to the number of collapsed cells.
    pub open spec fn wf(self) -> bool {
        &&& self.grid_x() >= 1
        &&& self.grid_y() >= 1
        &&& self.cell_count() == self.grid_x() * self.grid_y()
        &&& forall|i: int| 0 <= i < self.cell_count() ==> (#[trigger] self.cells_seq()[i]).wf()
        &&& forall|i: int|
            0 <= i < self.cell_count() ==> (#[trigger] self.cells_seq()[i]).weights_seq()
                == self.cells_seq()[0].weights_seq()
        &&& forall|i: int|
            0 <= i < self.cell_count() ==> (#[trigger] self.cells_seq()[i]).spec_num_remaining()
                >= 1
        &&& self.spec_num_collapsed() == count_collapsed(self.cells_seq(), self.cell_count())
    }

    /// Every remaining tile of every cell is justified from all four sides.
    pub open spec fn supported_all(self) -> bool {
        forall|i: int| 0 <= i < self.cell_count() ==> (#[trigger] self.cells_seq()[i]).supported()
    }

    pub open spec fn collapsed_spec(self) -> bool {
        self.spec_num_collapsed() == self.cell_count()
    }

    /// Index of the neighbouring cell in the given direction, with toroidal
    /// wrap in both axes.
    pub open spec fn neighbor_spec(self, i: int, loc: Location) -> int {
        let x = self.grid_x();
        let y = self.grid_y();
        let row = i / x;
        let col = i % x;
        match loc {
            Location::North => ((row + y - 1) % y) * x + col,
            Location::East => row * x + ((col + 1) % x),
            Location::South => ((row + 1) % y) * x + col,
            Location::West => row * x + ((col + x - 1) % x),
        }
    }

    /// A fresh wave: one cell per grid location, each holding the full
    /// superposition of the given tiles, with support counts seeded from the
    /// pairwise tile compatibilities. With a single tile every cell starts
    /// collapsed, and the collapse counter says so.
    pub fn new(tiles: &Vec<Tile>, x_cells: usize, y_cells: usize, size: usize) -> (w: Wave)
        requires
            tiles@.len() >= 1,
            forall|i: int| 0 <= i < tiles@.len() ==> (#[trigger] tiles@[i]).wf(),
            forall|i: int| 0 <= i < tiles@.len() ==> (#[trigger] tiles@[i]).spec_id().0 == i,
            sum_weights_all(weights_of(tiles@), tiles@.len() as int) <= 0x1_0000_0000,
            x_cells >= 1,
            y_cells >= 1,
            x_cells * y_cells <= usize::MAX,
        ensures
            w.wf(),
            w.grid_x() == x_cells,
            w.grid_y() == y_cells,
            w.pattern_size() == size,
            w.cell_count() == x_cells * y_cells,
            w.tile_count() == tiles@.len(),
            forall|i: int|
                0 <= i < w.cell_count() ==> (#[trigger] w.cells_seq()[i]).weights_seq()
                    == weights_of(tiles@),
            forall|i: int|
                0 <= i < w.cell_count() ==> (#[trigger] w.cells_seq()[i]).spec_num_remaining()
                    == tiles@.len(),
            forall|i: int, j: int, loc: Location|
                0 <= i < w.cell_count() && 0 <= j < tiles@.len()
                    ==> #[trigger] w.cells_seq()[i].support_at(j, loc)
                        == compat_count(tiles@, j, loc, tiles@.len() as int),
            w.spec_num_collapsed() == if tiles@.len() == 1 {
                x_cells * y_cells
            } else {
                0int
            },
            (forall|j: int, loc: Location|
                0 <= j < tiles@.len()
                    ==> #[trigger] compat_count(tiles@, j, loc, tiles@.len() as int) >= 1)
                ==> w.supported_all(),
    {
        let t: usize = tiles.len();

        let mut seeds: Vec<WaysToBecomeTile> = Vec::new();
        let mut a: usize = 0;
        while a < t
            invariant
                t == tiles@.len(),
                forall|i: int| 0 <= i < t ==> (#[trigger] tiles@[i]).wf(),
                0 <= a <= t,
                seeds@.len() == a,
                forall|q: int, loc: Location|
                    0 <= q < a ==> #[trigger] seeds@[q].spec_get(loc)
                        == compat_count(tiles@, q, loc, t as int),
            decreases t - a,
        {
            let count_north: usize = count_compat(tiles, a, Location::North);
            let count_east: usize = count_compat(tiles, a, Location::East);
            let count_south: usize = count_compat(tiles, a, Location::South);
            let count_west: usize = count_compat(tiles, a, Location::West);
            let mut row = WaysToBecomeTile::zero();
            row.set(Location::North, count_north);
            row.set(Location::East, count_east);
            row.set(Location::South, count_south);
            row.set(Location::West, count_west);
            seeds.push(row);
            proof {
                assert forall|loc: Location| #[trigger] seeds@[a as int].spec_get(loc)
                    == compat_count(tiles@, a as int, loc, t as int) by {
                    if loc == Location::North {
                        assert(seeds@[a as int].spec_get(Location::North) == count_north);
                    } else if loc == Location::East {
                        assert(seeds@[a as int].spec_get(Location::East) == count_east);
                    } else if loc == Location::South {
                        assert(seeds@[a as int].spec_get(Location::South) == count_south);
                    } else {
                        assert(seeds@[a as int].spec_get(Location::West) == count_west);
                    }
                }
            }
            a += 1;
        }

        let mut weights: Vec<u64> = Vec::new();
        let mut iw: usize = 0;
        while iw < t
            invariant
                t == tiles@.len(),
                0 <= iw <= t,
                weights@.len() == iw,
                forall|q: int| 0 <= q < iw ==> weights@[q] == tiles@[q].spec_weight(),
            decreases t - iw,
        {
            weights.push(tiles[iw].weight());
            iw += 1;
        }
        proof {
            assert(weights@ =~= weights_of(tiles@));
            assert forall|q: int| 0 <= q < t implies (#[trigger] weights@[q]) >= 1 by {
                assert(tiles@[q].wf());
            }
        }

        let n_cells: usize = x_cells * y_cells;
        let mut cells: Vec<Cell> = Vec::new();
        let mut ic: usize = 0;
        while ic < n_cells
            invariant
                t == tiles@.len(),
                t >= 1,
                seeds@.len() == t,
                weights@.len() == t,
                weights@ == weights_of(tiles@),
                forall|q: int| 0 <= q < t ==> (#[trigger] weights@[q]) >= 1,
                sum_weights_all(weights@, t as int) <= 0x1_0000_0000,
                forall|q: int, loc: Location|
                    0 <= q < t ==> #[trigger] seeds@[q].spec_get(loc)
                        == compat_count(tiles@, q, loc, t as int),
                0 <= ic <= n_cells,
                cells@.len() == ic,
                forall|i: int| 0 <= i < ic ==> (#[trigger] cells@[i]).wf(),
                forall|i: int| 0 <= i < ic ==> (#[trigger] cells@[i]).weights_seq() == weights@,
                forall|i: int|
                    0 <= i < ic ==> (#[trigger] cells@[i]).spec_num_remaining() == t,
                forall|i: int, j: int|
                    0 <= i < ic && 0 <= j < t ==> (#[trigger] cells@[i].remaining_seq()[j]),
                forall|i: int, j: int, loc: Location|
                    0 <= i < ic && 0 <= j < t ==> #[trigger] cells@[i].support_at(j, loc)
                        == compat_count(tiles@, j, loc, t as int),
            decreases n_cells - ic,
        {
            let seeds_copy = copy_support_rows(&seeds);
            let weights_copy = copy_weights(&weights);
            let c = Cell::new(seeds_copy, weights_copy);
            cells.push(c);
            ic += 1;
        }

        let num0: usize = if t == 1 {
            n_cells
        } else {
            0
        };
        let w = Wave { cells, x_cells, y_cells, size, num_collapsed: num0 };
        proof {
            assert(n_cells >= 1) by (nonlinear_arith)
                requires
                    n_cells == x_cells * y_cells,
                    x_cells >= 1,
                    y_cells >= 1,
            ;
            lemma_count_collapsed_uniform(w.cells@, n_cells as int, t as int);
            assert(w.wf());
            if forall|j: int, loc: Location|
                0 <= j < tiles@.len()
                    ==> #[trigger] compat_count(tiles@, j, loc, tiles@.len() as int) >= 1 {
                assert forall|i: int| 0 <= i < w.cell_count()
                    implies (#[trigger] w.cells_seq()[i]).supported() by {
                    assert forall|j: int, loc: Location|
                        0 <= j < w.cells_seq()[i].tile_count()
                            && w.cells_seq()[i].remaining_seq()[j]
                        implies #[trigger] w.cells_seq()[i].support_at(j, loc) >= 1 by {
                        assert(compat_count(tiles@, j, loc, tiles@.len() as int) >= 1);
                    }
                }
            }
        }
        w
    }

    /// Index of the neighbouring cell in the given direction, wrapping
    /// toroidally in both axes.
    fn neighbor(&self, index: usize, loc: Location) -> (r: usize)
        requires
            self.wf(),
            (index as int) < self.cell_count(),
        ensures
            r as int == self.neighbor_spec(index as int, loc),
            (r as int) < self.cell_count(),
    {
        let x: usize = self.x_cells;
        let y: usize = self.y_cells;
        let total_cells: usize = self.cells.len();
        proof {
            assert(total_cells as int == x as int * y as int);
            lemma_grid_decode(x as int, y as int, index as int);
        }
        let row: usize = index / x;
        let col: usize = index % x;
        let new_row: usize;
        let new_col: usize;
        match loc {
            Location::North => {
                new_row = if row == 0 {
                    y - 1
                } else {
                    row - 1
                };
                new_col = col;
                proof {
                    if row == 0 {
                        lemma_fundamental_div_mod_converse(
                            row as int + y as int - 1, y as int, 0, y as int - 1);
                    } else {
                        lemma_fundamental_div_mod_converse(
                            row as int + y as int - 1, y as int, 1, row as int - 1);
                    }
                }
            },
            Location::East => {
                new_row = row;
                new_col = if col + 1 == x {
                    0
                } else {
                    col + 1
                };
                proof {
                    if col + 1 == x {
                        lemma_fundamental_div_mod_converse(col as int + 1, x as int, 1, 0);
                    } else {
                        lemma_fundamental_div_mod_converse(
                            col as int + 1, x as int, 0, col as int + 1);
                    }
                }
            },
            Location::South => {
                new_row = if row + 1 == y {
                    0
                } else {
                    row + 1
                };
                new_col = col;
                proof {
                    if row + 1 == y {
                        lemma_fundamental_div_mod_converse(row as int + 1, y as int, 1, 0);
                    } else {
                        lemma_fundamental_div_mod_converse(
                            row as int + 1, y as int, 0, row as int + 1);
                    }
                }
            },
            Location::West => {
                new_row = row;
                new_col = if col == 0 {
                    x - 1
                } else {
                    col - 1
                };
                proof {
                    if col == 0 {
                        lemma_fundamental_div_mod_converse(
                            col as int + x as int - 1, x as int, 0, x as int - 1);
                    } else {
                        lemma_fundamental_div_mod_converse(
                            col as int + x as int - 1, x as int, 1, col as int - 1);
                    }
                }
            },
        }
        proof {
            lemma_grid_encode(x as int, y as int, new_row as int, new_col as int);
        }
        new_row * x + new_col
    }

    /// Whether the whole wave is collapsed: the counter equals the cell
    /// count, which under the invariant says every cell holds one tile.
    pub fn collapsed(&self) -> (r: bool)
        requires
            self.wf(),
        ensures
            r == self.collapsed_spec(),
            r ==> forall|j: int|
                0 <= j < self.cell_count()
                    ==> (#[trigger] self.cells_seq()[j]).spec_num_remaining() == 1,
    {
        proof {
            lemma_count_collapsed_bounds(self.cells@, self.cells@.len() as int);
            if self.num_collapsed == self.cells.len() {
                lemma_count_collapsed_full(self.cells@, self.cells@.len() as int);
            }
        }
        self.num_collapsed == self.cells.len()
    }

    pub fn x_cells(&self) -> (r: usize)
        ensures
            r == self.grid_x(),
    {
        self.x_cells
    }

    pub fn y_cells(&self) -> (r: usize)
        ensures
            r == self.grid_y(),
    {
        self.y_cells
    }

    pub fn pattern_side(&self) -> (r: usize)
        ensures
            r == self.pattern_size(),
    {
        self.size
    }

    pub fn cell_total(&self) -> (r: usize)
        ensures
            r == self.cell_count(),
    {
        self.cells.len()
    }

    pub fn num_collapsed_cells(&self) -> (r: usize)
        ensures
            r == self.spec_num_collapsed(),
    {
        self.num_collapsed
    }

    /// The indices of the uncollapsed cells of minimum entropy, in
    /// increasing order: every returned cell holds two or more tiles, is no
    /// worse than any uncollapsed cell, and every uncollapsed cell as good
    /// as the first returned one is returned.
    pub fn get_lowest_entropy_cells(&self) -> (r: Vec<usize>)
        requires
            self.wf(),
            !self.collapsed_spec(),
        ensures
            r@.len() >= 1,
            forall|k: int|
                0 <= k < r@.len() ==> ((#[trigger] r@[k]) as int) < self.cell_count()
                    && self.cells_seq()[r@[k] as int].spec_num_remaining() >= 2,
            forall|k1: int, k2: int| 0 <= k1 < k2 < r@.len() ==> r@[k1] < r@[k2],
            forall|k: int, j: int|
                0 <= k < r@.len() && 0 <= j < self.cell_count() && self.cells_seq()[
                    j
                ].spec_num_remaining() >= 2 ==> entropy_le(
                    #[trigger] self.cells_seq()[r@[k] as int],
                    #[trigger] self.cells_seq()[j],
                ),
            forall|j: int|
                0 <= j < self.cell_count() && (#[trigger] self.cells_seq()[
                    j
                ]).spec_num_remaining() >= 2 && entropy_le(
                    self.cells_seq()[j],
                    self.cells_seq()[r@[0] as int],
                ) ==> exists|k: int| 0 <= k < r@.len() && r@[k] == j,
    {
        let len: usize = self.cells.len();
        let mut best: Vec<usize> = Vec::new();
        let mut best_e: u64 = 0;
        let mut best_w: u64 = 1;
        let mut i: usize = 0;
        while i < len
            invariant
                self.wf(),
                len == self.cells@.len(),
                0 <= i <= len,
                (exists|j: int|
                    0 <= j < i && (#[trigger] self.cells@[j]).spec_num_remaining() >= 2) <==> best@.len() >= 1,
                forall|k: int|
                    0 <= k < best@.len() ==> ((#[trigger] best@[k]) as int) < i && self.cells@[
                        best@[k] as int
                    ].spec_num_remaining() >= 2,
                forall|k1: int, k2: int| 0 <= k1 < k2 < best@.len() ==> best@[k1] < best@[k2],
                best@.len() >= 1 ==> best_e as int == crate::cells::entropy_num(
                    self.cells@[best@[0] as int],
                ) && best_w == self.cells@[best@[0] as int].spec_sum_weights() && best_w >= 1,
                forall|k: int|
                    0 <= k < best@.len() ==> crate::cells::entropy_num(
                        #[trigger] self.cells@[best@[k] as int],
                    ) * best_w == best_e * self.cells@[best@[k] as int].spec_sum_weights(),
                forall|j: int|
                    0 <= j < i && (#[trigger] self.cells@[j]).spec_num_remaining() >= 2
                        ==> best_e * self.cells@[j].spec_sum_weights() <= crate::cells::entropy_num(
                        self.cells@[j],
                    ) * best_w,
                forall|j: int|
                    0 <= j < i && (#[trigger] self.cells@[j]).spec_num_remaining() >= 2
                        && crate::cells::entropy_num(self.cells@[j]) * best_w == best_e
                        * self.cells@[j].spec_sum_weights() ==> exists|k: int|
                        0 <= k < best@.len() && (#[trigger] best@[k]) == j,
            decreases len - i,
        {
            if self.cells[i].uncollapsed() {
                let e: u64 = self.cells[i].entropy();
                let cw: u64 = self.cells[i].sum_weights();
                proof {
                    crate::cells::lemma_sum_rem_ge_count(
                        self.cells@[i as int].weights_seq(),
                        self.cells@[i as int].remaining_seq(),
                        self.cells@[i as int].tile_count(),
                    );
                }
                if best.len() == 0 {
                    best.push(i);
                    best_e = e;
                    best_w = cw;
                } else {
                    proof {
                        assert((e as int) * (best_w as int) <= u128::MAX && (best_e as int) * (
                        cw as int) <= u128::MAX) by (nonlinear_arith)
                            requires
                                e <= u64::MAX,
                                best_w <= u64::MAX,
                                best_e <= u64::MAX,
                                cw <= u64::MAX,
                        ;
                    }
                    let cmp_new: u128 = (e as u128) * (best_w as u128);
                    let cmp_best: u128 = (best_e as u128) * (cw as u128);
                    let ghost old_best = best@;
                    let ghost old_e = best_e;
                    let ghost old_w = best_w;
                    if cmp_new < cmp_best {
                        best.clear();
                        best.push(i);
                        best_e = e;
                        best_w = cw;
                        proof {
                            let ghost b0 = self.cells@[old_best[0] as int];
                            let ghost ci = self.cells@[i as int];
                            assert forall|j: int|
                                0 <= j < i + 1 && (#[trigger] self.cells@[j]).spec_num_remaining()
                                    >= 2
                                implies best_e * self.cells@[j].spec_sum_weights()
                                    <= crate::cells::entropy_num(self.cells@[j]) * best_w by {
                                if j < i {
                                    crate::cells::lemma_sum_rem_ge_count(
                                        self.cells@[j].weights_seq(),
                                        self.cells@[j].remaining_seq(),
                                        self.cells@[j].tile_count(),
                                    );
                                    lemma_entropy_le_trans(ci, b0, self.cells@[j]);
                                }
                            }
                            assert forall|j: int|
                                0 <= j < i + 1 && (#[trigger] self.cells@[j]).spec_num_remaining()
                                    >= 2 && crate::cells::entropy_num(self.cells@[j]) * best_w
                                    == best_e * self.cells@[j].spec_sum_weights()
                                implies exists|k: int|
                                    0 <= k < best@.len() && (#[trigger] best@[k]) == j by {
                                if j < i {
                                    crate::cells::lemma_sum_rem_ge_count(
                                        self.cells@[j].weights_seq(),
                                        self.cells@[j].remaining_seq(),
                                        self.cells@[j].tile_count(),
                                    );
                                    // j as good as the new best would beat the
                                    // old best, which the old minimality of
                                    // the prefix rules out
                                    assert(entropy_le(self.cells@[j], ci));
                                    assert(!entropy_le(b0, ci));
                                    lemma_entropy_le_lt_trans(self.cells@[j], ci, b0);
                                    assert(false);
                                } else {
                                    assert(best@[0] == i);
                                }
                            }
                        }
                    } else if cmp_new == cmp_best {
                        best.push(i);
                        proof {
                            assert forall|j: int|
                                0 <= j < i + 1 && (#[trigger] self.cells@[j]).spec_num_remaining()
                                    >= 2 && crate::cells::entropy_num(self.cells@[j]) * best_w
                                    == best_e * self.cells@[j].spec_sum_weights()
                                implies exists|k: int|
                                    0 <= k < best@.len() && (#[trigger] best@[k]) == j by {
                                if j == i {
                                    assert(best@[best@.len() - 1] == i);
                                } else {
                                    let k = choose|k: int|
                                        0 <= k < old_best.len() && (#[trigger] old_best[k]) == j;
                                    assert(best@[k] == j);
                                }
                            }
                        }
                    } else {
                        proof {
                            assert(best_e * self.cells@[i as int].spec_sum_weights()
                                <= crate::cells::entropy_num(self.cells@[i as int]) * best_w);
                        }
                    }
                }
            }
            i += 1;
        }
        proof {
            lemma_count_collapsed_bounds(self.cells@, len as int);
            lemma_exists_uncollapsed(self.cells@, len as int);
            let ghost b0 = self.cells@[best@[0] as int];
            assert forall|k: int, j: int|
                0 <= k < best@.len() && 0 <= j < self.cell_count() && self.cells_seq()[
                    j
                ].spec_num_remaining() >= 2
                implies entropy_le(
                    #[trigger] self.cells_seq()[best@[k] as int],
                    #[trigger] self.cells_seq()[j],
                ) by {
                let bk = self.cells@[best@[k] as int];
                crate::cells::lemma_sum_rem_ge_count(
                    bk.weights_seq(),
                    bk.remaining_seq(),
                    bk.tile_count(),
                );
                crate::cells::lemma_sum_rem_ge_count(
                    self.cells@[j].weights_seq(),
                    self.cells@[j].remaining_seq(),
                    self.cells@[j].tile_count(),
                );
                assert(entropy_le(bk, b0));
                assert(entropy_le(b0, self.cells@[j]));
                lemma_entropy_le_trans(bk, b0, self.cells@[j]);
            }
        }
        best
    }

    /// Hand one propagation event to the neighbour in one direction: the
    /// neighbour decrements the support of the eliminated tile on the side
    /// facing back. Returns the index of the neighbour if its remaining set
    /// became empty; otherwise the wave invariant is maintained, the
    /// collapse counter tracks a cell that propagation just collapsed, and a
    /// cascaded elimination, if any, is queued.
    fn propagate_event_dir(
        &mut self,
        source: usize,
        tile: TileId,
        loc: Location,
        queue: &mut VecDeque<RemovedTile>,
    ) -> (invalid: Option<usize>)
        requires
            old(self).wf(),
            (source as int) < old(self).cell_count(),
            (tile.0 as int) < old(self).tile_count(),
            queue_wf(old(queue)@, old(self).cell_count(), old(self).tile_count()),
        ensures
            final(self).grid_x() == old(self).grid_x(),
            final(self).grid_y() == old(self).grid_y(),
            final(self).pattern_size() == old(self).pattern_size(),
            final(self).cell_count() == old(self).cell_count(),
            final(self).tile_count() == old(self).tile_count(),
            invalid is None ==> final(self).wf(),
            invalid is None ==> (old(self).supported_all() ==> final(self).supported_all()),
            invalid is None ==> queue_wf(
                final(queue)@,
                old(self).cell_count(),
                old(self).tile_count(),
            ),
            invalid is None ==> total_remaining(final(self).cells_seq(), final(self).cell_count())
                <= total_remaining(old(self).cells_seq(), old(self).cell_count()),
            invalid is None ==> (total_remaining(
                final(self).cells_seq(),
                final(self).cell_count(),
            ) == total_remaining(old(self).cells_seq(), old(self).cell_count()) ==> final(queue)@
                == old(queue)@),
            invalid matches Some(j) ==> (j as int) < old(self).cell_count()
                && final(self).cells_seq()[j as int].spec_num_remaining() == 0,
            cells_narrowed(old(self).cells_seq(), final(self).cells_seq()),
    {
        let ghost len = old(self).cell_count();
        let focus_index: usize = self.neighbor(source, loc);
        let opposite = loc.opposite();
        let focus = cell_mut(&mut self.cells, focus_index);
        let was_collapsed: bool = focus.collapsed();
        let cascaded = focus.removed_neighbor_tile(tile, opposite);
        proof {
            lemma_count_collapsed_update(
                old(self).cells@,
                focus_index as int,
                self.cells@[focus_index as int],
                len,
            );
            lemma_total_remaining_update(
                old(self).cells@,
                focus_index as int,
                self.cells@[focus_index as int],
                len,
            );
        }
        if let Some(t2) = cascaded {
            queue.push_back(RemovedTile { cell_index: focus_index, tile: t2 });
        }
        if self.cells[focus_index].invalid() {
            proof {
                assert forall|q: int| 0 <= q < len
                    implies crate::cells::narrowed(
                        old(self).cells@[q],
                        #[trigger] self.cells@[q],
                    ) by {
                    if q != focus_index {
                        assert(self.cells@[q] == old(self).cells@[q]);
                    }
                }
            }
            return Some(focus_index);
        }
        let newly_collapsed: bool = self.cells[focus_index].collapsed();
        proof {
            assert forall|q: int| 0 <= q < len implies (#[trigger] self.cells@[q]).wf()
                && self.cells@[q].spec_num_remaining() >= 1 && self.cells@[q].weights_seq()
                == self.cells@[0].weights_seq() by {
                assert(old(self).cells@[q].wf());
                assert(old(self).cells@[q].weights_seq() == old(self).cells@[0].weights_seq());
            }
            lemma_count_collapsed_bounds(old(self).cells@, len);
        }
        if !was_collapsed && newly_collapsed {
            let total_cells: usize = self.cells.len();
            proof {
                lemma_count_collapsed_bounds(self.cells@, len);
                assert(self.num_collapsed + 1 <= total_cells);
            }
            self.num_collapsed = self.num_collapsed + 1;
        }
        proof {
            assert(self.wf());
            assert(old(self).supported_all() ==> self.supported_all()) by {
                if old(self).supported_all() {
                    assert forall|q: int| 0 <= q < len
                        implies (#[trigger] self.cells@[q]).supported() by {
                        assert(old(self).cells@[q].supported());
                    }
                }
            }
            assert forall|q: int| 0 <= q < len
                implies crate::cells::narrowed(old(self).cells@[q], #[trigger] self.cells@[q]) by {
                if q != focus_index {
                    assert(self.cells@[q] == old(self).cells@[q]);
                }
            }
        }
        None
    }

    /// One observe-and-propagate step. On an already finished wave it
    /// reports so and changes nothing. Otherwise it collapses one cell of
    /// minimum entropy, chosen uniformly at random among the tied ones, and
    /// drains the propagation queue; the sum of the cells' remaining counts
    /// strictly decreases. The step returns whether the wave is now fully
    /// collapsed, or the index of a cell whose remaining set became empty —
    /// the wave is then inconsistent and should be discarded.
    pub fn collapse(&mut self) -> (r: Result<bool, WaveCollapseError>)
        requires
            old(self).wf(),
        ensures
            final(self).grid_x() == old(self).grid_x(),
            final(self).grid_y() == old(self).grid_y(),
            final(self).pattern_size() == old(self).pattern_size(),
            final(self).cell_count() == old(self).cell_count(),
            final(self).tile_count() == old(self).tile_count(),
            match r {
                Ok(done) => {
                    &&& !old(self).collapsed_spec()
                    &&& final(self).wf()
                    &&& total_remaining(final(self).cells_seq(), final(self).cell_count())
                        < total_remaining(old(self).cells_seq(), old(self).cell_count())
                    &&& old(self).supported_all() ==> final(self).supported_all()
                    &&& cells_narrowed(old(self).cells_seq(), final(self).cells_seq())
                    &&& done == final(self).collapsed_spec()
                },
                Err(WaveCollapseError::AlreadyCollapsed) => {
                    &&& old(self).collapsed_spec()
                    &&& *final(self) == *old(self)
                },
                Err(WaveCollapseError::InvalidCell(j)) => {
                    &&& !old(self).collapsed_spec()
                    &&& (j as int) < old(self).cell_count()
                    &&& final(self).cells_seq()[j as int].spec_num_remaining() == 0
                    &&& cells_narrowed(old(self).cells_seq(), final(self).cells_seq())
                },
            },
    {
        let ghost len = old(self).cell_count();
        if self.collapsed() {
            return Err(WaveCollapseError::AlreadyCollapsed);
        }

        let lowest = self.get_lowest_entropy_cells();
        let pick: u64 = random_below(lowest.len() as u64);
        let index: usize = lowest[pick as usize];

        let eliminated = cell_mut(&mut self.cells, index).collapse();
        proof {
            lemma_count_collapsed_update(
                old(self).cells@,
                index as int,
                self.cells@[index as int],
                len,
            );
            lemma_total_remaining_update(
                old(self).cells@,
                index as int,
                self.cells@[index as int],
                len,
            );
            lemma_count_collapsed_bounds(old(self).cells@, len);
            assert forall|q: int| 0 <= q < len implies (#[trigger] self.cells@[q]).wf()
                && self.cells@[q].spec_num_remaining() >= 1 && self.cells@[q].weights_seq()
                == self.cells@[0].weights_seq() by {
                assert(old(self).cells@[q].wf());
                assert(old(self).cells@[q].weights_seq() == old(self).cells@[0].weights_seq());
            }
        }
        let total_cells: usize = self.cells.len();
        proof {
            assert(self.num_collapsed + 1 <= total_cells);
        }
        self.num_collapsed = self.num_collapsed + 1;
        proof {
            lemma_total_remaining_nonneg(self.cells@, len);
            assert(self.wf());
            assert forall|q: int| 0 <= q < len
                implies crate::cells::narrowed(old(self).cells@[q], #[trigger] self.cells@[q]) by {
                if q != index {
                    assert(self.cells@[q] == old(self).cells@[q]);
                }
            }
            assert(old(self).supported_all() ==> self.supported_all()) by {
                if old(self).supported_all() {
                    assert forall|q: int| 0 <= q < len
                        implies (#[trigger] self.cells@[q]).supported() by {
                        assert(old(self).cells@[q].supported());
                    }
                }
            }
        }

        let mut queue: VecDeque<RemovedTile> = VecDeque::new();
        let mut qi: usize = 0;
        while qi < eliminated.len()
            invariant
                0 <= qi <= eliminated@.len(),
                queue@.len() == qi,
                forall|k: int|
                    0 <= k < eliminated@.len() ==> ((#[trigger] eliminated@[k]).0 as int)
                        < self.tile_count(),
                (index as int) < self.cell_count(),
                queue_wf(queue@, self.cell_count(), self.tile_count()),
            decreases eliminated@.len() - qi,
        {
            queue.push_back(RemovedTile { cell_index: index, tile: eliminated[qi] });
            qi += 1;
        }

        while !self.collapsed() && queue.len() > 0
            invariant
                self.wf(),
                !old(self).collapsed_spec(),
                self.grid_x() == old(self).grid_x(),
                self.grid_y() == old(self).grid_y(),
                self.pattern_size() == old(self).pattern_size(),
                self.cell_count() == old(self).cell_count(),
                self.tile_count() == old(self).tile_count(),
                queue_wf(queue@, self.cell_count(), self.tile_count()),
                total_remaining(self.cells_seq(), self.cell_count()) < total_remaining(
                    old(self).cells_seq(),
                    len,
                ),
                total_remaining(self.cells_seq(), self.cell_count()) >= 0,
                old(self).supported_all() ==> self.supported_all(),
                cells_narrowed(old(self).cells_seq(), self.cells_seq()),
            decreases total_remaining(self.cells_seq(), self.cell_count()), queue@.len(),
        {
            let ghost iter_cells = self.cells@;
            let ghost iter_total = total_remaining(self.cells_seq(), self.cell_count());
            let event = queue.pop_front().unwrap();

            let ghost cells_before_north = self.cells@;
            if let Some(broken) = self.propagate_event_dir(
                event.cell_index,
                event.tile,
                Location::North,
                &mut queue,
            ) {
                proof {
                    lemma_cells_narrowed_trans(old(self).cells@, cells_before_north, self.cells@);
                }
                return Err(WaveCollapseError::InvalidCell(broken));
            }
            proof {
                lemma_cells_narrowed_trans(old(self).cells@, cells_before_north, self.cells@);
            }
            let ghost cells_before_east = self.cells@;
            if let Some(broken) = self.propagate_event_dir(
                event.cell_index,
                event.tile,
                Location::East,
                &mut queue,
            ) {
                proof {
                    lemma_cells_narrowed_trans(old(self).cells@, cells_before_east, self.cells@);
                }
                return Err(WaveCollapseError::InvalidCell(broken));
            }
            proof {
                lemma_cells_narrowed_trans(old(self).cells@, cells_before_east, self.cells@);
            }
            let ghost cells_before_south = self.cells@;
            if let Some(broken) = self.propagate_event_dir(
                event.cell_index,
                event.tile,
                Location::South,
                &mut queue,
            ) {
                proof {
                    lemma_cells_narrowed_trans(old(self).cells@, cells_before_south, self.cells@);
                }
                return Err(WaveCollapseError::InvalidCell(broken));
            }
            proof {
                lemma_cells_narrowed_trans(old(self).cells@, cells_before_south, self.cells@);
            }
            let ghost cells_before_west = self.cells@;
            if let Some(broken) = self.propagate_event_dir(
                event.cell_index,
                event.tile,
                Location::West,
                &mut queue,
            ) {
                proof {
                    lemma_cells_narrowed_trans(old(self).cells@, cells_before_west, self.cells@);
                }
                return Err(WaveCollapseError::InvalidCell(broken));
            }
            proof {
                lemma_cells_narrowed_trans(old(self).cells@, cells_before_west, self.cells@);
            }
            proof {
                lemma_total_remaining_nonneg(self.cells@, self.cell_count());
            }
        }
        let done: bool = self.collapsed();
        Ok(done)
    }

    /// The ids of the tiles still possible at one cell, in increasing order.
    pub fn remaining_tile_ids(&self, index: usize) -> (r: Vec<TileId>)
        requires
            self.wf(),
            (index as int) < self.cell_count(),
        ensures
            r@.len() == self.cells_seq()[index as int].spec_num_remaining(),
            forall|k: int|
                0 <= k < r@.len() ==> ((#[trigger] r@[k]).0 as int) < self.tile_count()
                    && self.cells_seq()[index as int].remaining_seq()[r@[k].0 as int],
            forall|k1: int, k2: int| 0 <= k1 < k2 < r@.len() ==> r@[k1].0 < r@[k2].0,
    {
        self.cells[index].remaining_tile_ids()
    }

    /// The single tile of one collapsed cell, None while the cell holds
    /// several or none.
    pub fn choosen_tile(&self, index: usize) -> (r: Option<TileId>)
        requires
            self.wf(),
            (index as int) < self.cell_count(),
        ensures
            (self.cells_seq()[index as int].spec_num_remaining() == 1) == (r is Some),
            r matches Some(tid) ==> ((tid.0 as int) < self.tile_count()
                && self.cells_seq()[index as int].remaining_seq()[tid.0 as int]),
    {
        self.cells[index].choosen_tile()
    }
}

} // verus!
