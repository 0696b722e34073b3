use vstd::prelude::*;

use crate::cells::{
    lemma_sum_weights_all_agree, lemma_sum_weights_all_term_le, lemma_sum_weights_all_update,
    sum_weights_all,
};
use crate::numeric::{is_perfect_square, lemma_grid_encode};
use crate::patterns::{permutation_seqs, Pattern};
use crate::tiles::Tile;
use crate::weights_of;

verus! {

/// The n-by-n window of a toroidally wrapped exemplar of the given width and
/// height, anchored at column x, row y: window entry i*n+j holds the
/// exemplar sample at column x+i, row y+j, both wrapped.
pub open spec fn window_seq_spec(
    ex: Seq<u32>,
    width: nat,
    height: nat,
    n: nat,
    x: int,
    y: int,
) -> Seq<u32> {
    Seq::new(
        n * n,
        |k: int|
            ex[(((y + k % (n as int)) % (height as int)) * (width as int)) + ((x + k / (n as int))
                % (width as int))],
    )
}

/// Occurrences of one pattern value among the first k of a pattern list.
pub open spec fn occurrence_count(patterns: Seq<Pattern>, cells: Seq<u32>, side: nat, k: int) -> int
    decreases k,
{
    if k <= 0 {
        0
    } else {
        occurrence_count(patterns, cells, side, k - 1) + if patterns[k - 1].cells() == cells
            && patterns[k - 1].side() == side {
            1int
        } else {
            0int
        }
    }
}

proof fn lemma_occurrence_zero(patterns: Seq<Pattern>, cells: Seq<u32>, side: nat, k: int)
    requires
        forall|j: int|
            0 <= j < k ==> !((#[trigger] patterns[j]).cells() == cells && patterns[j].side()
                == side),
    ensures
        occurrence_count(patterns, cells, side, k) == 0,
    decreases k,
{
    if k > 0 {
        lemma_occurrence_zero(patterns, cells, side, k - 1);
    }
}

/// The n-by-n window of the toroidally wrapped exemplar at offset (x, y).
pub fn extract_window(
    exemplar: &Vec<u32>,
    width: usize,
    height: usize,
    n: usize,
    x: usize,
    y: usize,
) -> (p: Pattern)
    requires
        width >= 1,
        height >= 1,
        n >= 1,
        exemplar@.len() == width * height,
        n * n <= usize::MAX,
        width + n <= usize::MAX,
        height + n <= usize::MAX,
        x < width,
        y < height,
    ensures
        p.wf(),
        p.side() == n,
        p.cells() == window_seq_spec(
            exemplar@,
            width as nat,
            height as nat,
            n as nat,
            x as int,
            y as int,
        ),
{
    let area: usize = n * n;
    let ex_len: usize = exemplar.len();
    let mut data: Vec<u32> = Vec::new();
    let mut k: usize = 0;
    while k < area
        invariant
            width >= 1,
            height >= 1,
            n >= 1,
            exemplar@.len() == width * height,
            ex_len == exemplar@.len(),
            area == n * n,
            width + n <= usize::MAX,
            height + n <= usize::MAX,
            x < width,
            y < height,
            0 <= k <= area,
            data@.len() == k,
            forall|q: int|
                0 <= q < k ==> data@[q] == exemplar@[(((y + q % (n as int)) % (height as int)) * (
                width as int)) + ((x + q / (n as int)) % (width as int))],
        decreases area - k,
    {
        proof {
            crate::numeric::lemma_grid_decode(n as int, n as int, k as int);
        }
        let i: usize = k / n;
        let j: usize = k % n;
        let col: usize = (x + i) % width;
        let row: usize = (y + j) % height;
        proof {
            vstd::arithmetic::div_mod::lemma_mod_bound(x as int + i as int, width as int);
            vstd::arithmetic::div_mod::lemma_mod_bound(y as int + j as int, height as int);
            lemma_grid_encode(width as int, height as int, row as int, col as int);
        }
        data.push(exemplar[row * width + col]);
        k += 1;
    }
    proof {
        assert((n as nat) * (n as nat) == data@.len() as nat);
        assert(is_perfect_square(data@.len() as nat));
    }
    let p = Pattern::new(data);
    proof {
        assert(p.side() == n) by (nonlinear_arith)
            requires
                p.side() * p.side() == (n as nat) * (n as nat),
                p.side() >= 0,
                n >= 1,
        ;
        assert(p.cells() =~= window_seq_spec(
            exemplar@,
            width as nat,
            height as nat,
            n as nat,
            x as int,
            y as int,
        ));
    }
    p
}

/// Every n-by-n window of the exemplar, toroidally wrapped, expanded to its
/// eight dihedral images: the multiset of sampling windows whose
/// frequencies define the tile weights. Windows are visited column by
/// column, and each window contributes its images in the fixed
/// all_permutations order.
pub fn extract_patterns(exemplar: &Vec<u32>, width: usize, height: usize, n: usize) -> (r: Vec<
    Pattern,
>)
    requires
        width >= 1,
        height >= 1,
        n >= 1,
        exemplar@.len() == width * height,
        n * n <= usize::MAX,
        width + n <= usize::MAX,
        height + n <= usize::MAX,
        width * height * 8 <= usize::MAX,
    ensures
        r@.len() == width * height * 8,
        forall|k: int| 0 <= k < r@.len() ==> (#[trigger] r@[k]).wf() && r@[k].side() == n,
        forall|x: int, y: int, q: int|
            0 <= x < width && 0 <= y < height && 0 <= q < 8 ==> (#[trigger] r@[(x * height + y) * 8
                + q]).cells() == permutation_seqs(
                window_seq_spec(exemplar@, width as nat, height as nat, n as nat, x, y),
                n as nat,
            )[q],
{
    let mut out: Vec<Pattern> = Vec::new();
    let mut x: usize = 0;
    while x < width
        invariant
            width >= 1,
            height >= 1,
            n >= 1,
            exemplar@.len() == width * height,
            n * n <= usize::MAX,
            width + n <= usize::MAX,
            height + n <= usize::MAX,
            width * height * 8 <= usize::MAX,
            0 <= x <= width,
            out@.len() == x * height * 8,
            forall|k: int| 0 <= k < out@.len() ==> (#[trigger] out@[k]).wf() && out@[k].side() == n,
            forall|x2: int, y2: int, q: int|
                0 <= x2 < x && 0 <= y2 < height && 0 <= q < 8 ==> (#[trigger] out@[(x2 * height
                    + y2) * 8 + q]).cells() == permutation_seqs(
                    window_seq_spec(exemplar@, width as nat, height as nat, n as nat, x2, y2),
                    n as nat,
                )[q],
        decreases width - x,
    {
        let mut y: usize = 0;
        while y < height
            invariant
                width >= 1,
                height >= 1,
                n >= 1,
                exemplar@.len() == width * height,
                n * n <= usize::MAX,
                width + n <= usize::MAX,
                height + n <= usize::MAX,
                width * height * 8 <= usize::MAX,
                x < width,
                0 <= y <= height,
                out@.len() == (x * height + y) * 8,
                forall|k: int|
                    0 <= k < out@.len() ==> (#[trigger] out@[k]).wf() && out@[k].side() == n,
                forall|x2: int, y2: int, q: int|
                    0 <= x2 < x && 0 <= y2 < height && 0 <= q < 8 ==> (#[trigger] out@[(x2 * height
                        + y2) * 8 + q]).cells() == permutation_seqs(
                        window_seq_spec(exemplar@, width as nat, height as nat, n as nat, x2, y2),
                        n as nat,
                    )[q],
                forall|y2: int, q: int|
                    0 <= y2 < y && 0 <= q < 8 ==> (#[trigger] out@[(x * height + y2) * 8
                        + q]).cells() == permutation_seqs(
                        window_seq_spec(
                            exemplar@,
                            width as nat,
                            height as nat,
                            n as nat,
                            x as int,
                            y2,
                        ),
                        n as nat,
                    )[q],
            decreases height - y,
        {
            proof {
                assert((x * height + y) * 8 + 8 <= width * height * 8) by (nonlinear_arith)
                    requires
                        0 <= x < width,
                        0 <= y < height,
                        height >= 1,
                ;
            }
            let window = extract_window(exemplar, width, height, n, x, y);
            let mut images = window.all_permutations();
            let ghost imgs = images@;
            let ghost old_out = out@;
            out.append(&mut images);
            proof {
                assert forall|x2: int, y2: int, q: int|
                    0 <= x2 < x && 0 <= y2 < height && 0 <= q < 8
                    implies (#[trigger] out@[(x2 * height + y2) * 8 + q]).cells()
                        == permutation_seqs(
                        window_seq_spec(exemplar@, width as nat, height as nat, n as nat, x2, y2),
                        n as nat,
                    )[q] by {
                    assert(0 <= (x2 * height + y2) * 8 + q < old_out.len()) by (nonlinear_arith)
                        requires
                            0 <= x2 < x,
                            0 <= y2 < height,
                            0 <= q < 8,
                            height >= 1,
                            old_out.len() == (x as int * height + y as int) * 8,
                            0 <= y,
                    ;
                    assert(out@[(x2 * height + y2) * 8 + q] == old_out[(x2 * height + y2) * 8
                        + q]);
                }
                assert forall|y2: int, q: int|
                    0 <= y2 < y + 1 && 0 <= q < 8
                    implies (#[trigger] out@[(x * height + y2) * 8 + q]).cells()
                        == permutation_seqs(
                        window_seq_spec(
                            exemplar@,
                            width as nat,
                            height as nat,
                            n as nat,
                            x as int,
                            y2,
                        ),
                        n as nat,
                    )[q] by {
                    if y2 < y {
                        assert(0 <= (x as int * height + y2) * 8 + q < old_out.len())
                            by (nonlinear_arith)
                            requires
                                0 <= y2 < y,
                                0 <= q < 8,
                                old_out.len() == (x as int * height + y as int) * 8,
                                0 <= x,
                                height >= 1,
                        ;
                        assert(out@[(x * height + y2) * 8 + q] == old_out[(x * height + y2) * 8
                            + q]);
                    } else {
                        assert(out@[old_out.len() + q] == imgs[q]);
                        assert((x as int * height + y2) * 8 + q == old_out.len() + q);
                    }
                }
            }
            y += 1;
            proof {
                assert(out@.len() == (x * height + y) * 8) by (nonlinear_arith)
                    requires
                        out@.len() == (x * height + y - 1) * 8 + 8,
                ;
            }
        }
        x += 1;
        proof {
            assert((x - 1) * height + height == x * height) by (nonlinear_arith);
        }
    }
    out
}

/// Deduplicate the expanded windows into the tile list: one tile per
/// distinct pattern, its weight the number of occurrences of that pattern,
/// ids dense in first-occurrence order. The weights sum to the number of
/// windows handed in.
pub fn build_tiles(patterns: &Vec<Pattern>) -> (r: Vec<Tile>)
    requires
        patterns@.len() >= 1,
        forall|k: int| 0 <= k < patterns@.len() ==> (#[trigger] patterns@[k]).wf(),
        patterns@.len() <= 0x1_0000_0000,
    ensures
        r@.len() >= 1,
        forall|i: int| 0 <= i < r@.len() ==> (#[trigger] r@[i]).wf() && r@[i].spec_id().0 == i,
        forall|i: int|
            0 <= i < r@.len() ==> (#[trigger] r@[i]).spec_weight() as int == occurrence_count(
                patterns@,
                r@[i].spec_pattern().cells(),
                r@[i].spec_pattern().side(),
                patterns@.len() as int,
            ),
        forall|i1: int, i2: int|
            0 <= i1 < i2 < r@.len() ==> !((#[trigger] r@[i1]).spec_pattern().cells() == (
            #[trigger] r@[i2]).spec_pattern().cells() && r@[i1].spec_pattern().side()
                == r@[i2].spec_pattern().side()),
        forall|k: int|
            0 <= k < patterns@.len() ==> exists|i: int|
                0 <= i < r@.len() && (#[trigger] patterns@[k]).cells() == r@[
                    i
                ].spec_pattern().cells() && patterns@[k].side() == r@[i].spec_pattern().side(),
        sum_weights_all(weights_of(r@), r@.len() as int) == patterns@.len(),
{
    let total: usize = patterns.len();
    let mut reps: Vec<Pattern> = Vec::new();
    let mut counts: Vec<u64> = Vec::new();
    let mut k: usize = 0;
    while k < total
        invariant
            total == patterns@.len(),
            total <= 0x1_0000_0000,
            forall|q: int| 0 <= q < total ==> (#[trigger] patterns@[q]).wf(),
            0 <= k <= total,
            reps@.len() == counts@.len(),
            forall|i: int| 0 <= i < reps@.len() ==> (#[trigger] reps@[i]).wf(),
            forall|i: int| 0 <= i < counts@.len() ==> 1 <= (#[trigger] counts@[i]) <= k,
            forall|i: int|
                0 <= i < reps@.len() ==> (#[trigger] counts@[i]) as int == occurrence_count(
                    patterns@,
                    reps@[i].cells(),
                    reps@[i].side(),
                    k as int,
                ),
            forall|i1: int, i2: int|
                0 <= i1 < i2 < reps@.len() ==> !((#[trigger] reps@[i1]).cells() == (
                #[trigger] reps@[i2]).cells() && reps@[i1].side() == reps@[i2].side()),
            forall|q: int|
                0 <= q < k ==> exists|i: int|
                    0 <= i < reps@.len() && (#[trigger] patterns@[q]).cells() == reps@[i].cells()
                        && patterns@[q].side() == reps@[i].side(),
            sum_weights_all(counts@, counts@.len() as int) == k,
        decreases total - k,
    {
        let mut found: bool = false;
        let mut at: usize = 0;
        let reps_len: usize = reps.len();
        let mut i: usize = 0;
        while i < reps_len
            invariant
                reps_len == reps@.len(),
                total == patterns@.len(),
                k < total,
                0 <= i <= reps_len,
                !found ==> forall|q: int|
                    0 <= q < i ==> !((#[trigger] reps@[q]).cells() == patterns@[k as int].cells()
                        && reps@[q].side() == patterns@[k as int].side()),
                found ==> (at as int) < reps@.len() && reps@[at as int].cells() == patterns@[
                    k as int
                ].cells() && reps@[at as int].side() == patterns@[k as int].side(),
            ensures
                !found ==> forall|q: int|
                    0 <= q < reps@.len() ==> !((#[trigger] reps@[q]).cells() == patterns@[
                        k as int
                    ].cells() && reps@[q].side() == patterns@[k as int].side()),
                found ==> (at as int) < reps@.len() && reps@[at as int].cells() == patterns@[
                    k as int
                ].cells() && reps@[at as int].side() == patterns@[k as int].side(),
            decreases reps_len - i,
        {
            if reps[i].eq_pattern(&patterns[k]) {
                found = true;
                at = i;
                break ;
            }
            i += 1;
        }
        if found {
            let ghost old_counts = counts@;
            let c: u64 = counts[at];
            counts.set(at, c + 1);
            proof {
                lemma_sum_weights_all_update(
                    old_counts,
                    at as int,
                    (c + 1) as u64,
                    old_counts.len() as int,
                );
                assert forall|q: int|
                    0 <= q < reps@.len()
                    implies (#[trigger] counts@[q]) as int == occurrence_count(
                        patterns@,
                        reps@[q].cells(),
                        reps@[q].side(),
                        k as int + 1,
                    ) by {
                    if q != at {
                        if q < at {
                            assert(!(reps@[q].cells() == reps@[at as int].cells()
                                && reps@[q].side() == reps@[at as int].side()));
                        } else {
                            assert(!(reps@[at as int].cells() == reps@[q].cells()
                                && reps@[at as int].side() == reps@[q].side()));
                        }
                    }
                }
                assert forall|q: int|
                    0 <= q < k + 1
                    implies exists|i: int|
                        0 <= i < reps@.len() && (#[trigger] patterns@[q]).cells()
                            == reps@[i].cells() && patterns@[q].side() == reps@[i].side() by {
                    if q == k {
                        assert(0 <= (at as int) < reps@.len() && patterns@[q].cells()
                            == reps@[at as int].cells() && patterns@[q].side()
                            == reps@[at as int].side());
                    }
                }
            }
        } else {
            let ghost old_reps = reps@;
            let ghost old_counts = counts@;
            reps.push(patterns[k].clone());
            counts.push(1);
            proof {
                let ghost pk = patterns@[k as int];
                let ghost last = reps@.len() - 1;
                assert(reps@[last].cells() == pk.cells() && reps@[last].side() == pk.side());
                assert forall|q: int|
                    0 <= q < k
                    implies !((#[trigger] patterns@[q]).cells() == pk.cells()
                        && patterns@[q].side() == pk.side()) by {
                    if patterns@[q].cells() == pk.cells() && patterns@[q].side() == pk.side() {
                        let i2 = choose|i2: int|
                            0 <= i2 < old_reps.len() && (#[trigger] patterns@[q]).cells()
                                == old_reps[i2].cells() && patterns@[q].side()
                                == old_reps[i2].side();
                        assert(old_reps[i2].cells() == pk.cells() && old_reps[i2].side()
                            == pk.side());
                        assert(false);
                    }
                }
                lemma_occurrence_zero(patterns@, pk.cells(), pk.side(), k as int);
                lemma_sum_weights_all_agree(old_counts, counts@, old_counts.len() as int);
                assert forall|q: int|
                    0 <= q < reps@.len()
                    implies (#[trigger] counts@[q]) as int == occurrence_count(
                        patterns@,
                        reps@[q].cells(),
                        reps@[q].side(),
                        k as int + 1,
                    ) by {
                    if q < last {
                        assert(reps@[q] == old_reps[q]);
                        assert(counts@[q] == old_counts[q]);
                        assert(!(old_reps[q].cells() == pk.cells() && old_reps[q].side()
                            == pk.side()));
                    }
                }
                assert forall|q: int|
                    0 <= q < k + 1
                    implies exists|i: int|
                        0 <= i < reps@.len() && (#[trigger] patterns@[q]).cells()
                            == reps@[i].cells() && patterns@[q].side() == reps@[i].side() by {
                    if q < k {
                        let i2 = choose|i2: int|
                            0 <= i2 < old_reps.len() && (#[trigger] patterns@[q]).cells()
                                == old_reps[i2].cells() && patterns@[q].side()
                                == old_reps[i2].side();
                        assert(0 <= i2 < reps@.len() && patterns@[q].cells() == reps@[i2].cells()
                            && patterns@[q].side() == reps@[i2].side());
                    } else {
                        assert(0 <= last < reps@.len() && patterns@[q].cells()
                            == reps@[last].cells() && patterns@[q].side() == reps@[last].side());
                    }
                }
                assert forall|i1: int, i2: int|
                    0 <= i1 < i2 < reps@.len()
                    implies !((#[trigger] reps@[i1]).cells() == (#[trigger] reps@[i2]).cells()
                        && reps@[i1].side() == reps@[i2].side()) by {
                    if i2 == last {
                        assert(reps@[i1] == old_reps[i1]);
                        assert(!(old_reps[i1].cells() == pk.cells() && old_reps[i1].side()
                            == pk.side()));
                    } else {
                        assert(reps@[i1] == old_reps[i1]);
                        assert(reps@[i2] == old_reps[i2]);
                    }
                }
            }
        }
        k += 1;
    }

    let reps_total: usize = reps.len();
    let mut tiles: Vec<Tile> = Vec::new();
    let mut t: usize = 0;
    while t < reps_total
        invariant
            reps_total == reps@.len(),
            reps@.len() == counts@.len(),
            forall|i: int| 0 <= i < reps@.len() ==> (#[trigger] reps@[i]).wf(),
            forall|i: int| 0 <= i < counts@.len() ==> (#[trigger] counts@[i]) >= 1,
            0 <= t <= reps_total,
            tiles@.len() == t,
            forall|i: int|
                0 <= i < t ==> (#[trigger] tiles@[i]).wf() && tiles@[i].spec_id().0 == i
                    && tiles@[i].spec_weight() == counts@[i] && tiles@[i].spec_pattern().cells()
                    == reps@[i].cells() && tiles@[i].spec_pattern().side() == reps@[i].side(),
        decreases reps_total - t,
    {
        tiles.push(Tile::new(reps[t].clone(), counts[t], t));
        t += 1;
    }
    proof {
        assert(weights_of(tiles@) =~= counts@);
        lemma_sum_weights_all_agree(weights_of(tiles@), counts@, counts@.len() as int);
        assert(patterns@.len() >= 1);
        assert(reps@.len() >= 1) by {
            assert(exists|i: int|
                0 <= i < reps@.len() && (#[trigger] patterns@[0]).cells() == reps@[i].cells()
                    && patterns@[0].side() == reps@[i].side());
        }
        assert forall|q: int|
            0 <= q < patterns@.len()
            implies exists|i: int|
                0 <= i < tiles@.len() && (#[trigger] patterns@[q]).cells() == tiles@[
                    i
                ].spec_pattern().cells() && patterns@[q].side()
                    == tiles@[i].spec_pattern().side() by {
            let i2 = choose|i2: int|
                0 <= i2 < reps@.len() && (#[trigger] patterns@[q]).cells() == reps@[i2].cells()
                    && patterns@[q].side() == reps@[i2].side();
            assert(0 <= i2 < tiles@.len() && patterns@[q].cells() == tiles@[
                i2
            ].spec_pattern().cells() && patterns@[q].side() == tiles@[i2].spec_pattern().side());
        }
    }
    tiles
}

} // verus!
