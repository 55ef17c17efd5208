use vstd::prelude::*;
use crate::board::{
    advance_all, combine_count, grid_merges, in_flight, landed_at, landed_grid, line_values,
    merges_upto, resolve, slid_grid,
};
use crate::direction::{Direction, cell_x, cell_y};
use crate::rules::{EMPTY, is_cell_value, merge_count, merge_state, slid_line, tile_count, lemma_merge_state};
use crate::sums::{sum_to, lemma_sum_add, lemma_sum_ext, lemma_sum_reverse, lemma_sum_swap};
use crate::tile::MovingTile;

verus! {

/// An `n` by `n` grid.
pub open spec fn is_square(g: Seq<Seq<usize>>, n: int) -> bool {
    &&& n >= 0
    &&& g.len() == n
    &&& forall|y: int| 0 <= y < n ==> (#[trigger] g[y]).len() == n
}

/// Number of tiles (non-empty cells) on an `n` by `n` grid.
pub open spec fn grid_tiles(g: Seq<Seq<usize>>, n: int) -> nat {
    sum_to(|y: int| tile_count(g[y]), n)
}

/// 1 for a cell holding a tile, else 0.
pub open spec fn occupied(v: usize) -> nat {
    if v != EMPTY { 1 } else { 0 }
}

proof fn lemma_tile_count_sum(s: Seq<usize>)
    ensures
        tile_count(s) == sum_to(|k: int| occupied(s[k]), s.len() as int),
    decreases s.len(),
{
    if s.len() > 0 {
        let p = s.drop_last();
        lemma_tile_count_sum(p);
        lemma_sum_ext(|k: int| occupied(p[k]), |k: int| occupied(s[k]), p.len() as int);
        assert(sum_to(|k: int| occupied(s[k]), s.len() as int) == sum_to(
            |k: int| occupied(s[k]),
            p.len() as int,
        ) + occupied(s[s.len() - 1]));
    }
}

proof fn lemma_sum_prefix_ones(c: int, m: int)
    requires
        0 <= c <= m,
    ensures
        sum_to(|k: int| if k < c { 1nat } else { 0nat }, m) == c,
    decreases m,
{
    if m > c {
        lemma_sum_prefix_ones(c, m - 1);
    } else if m > 0 {
        lemma_sum_prefix_ones_exact(m);
    }
}

proof fn lemma_sum_prefix_ones_exact(m: int)
    requires
        m >= 0,
    ensures
        sum_to(|k: int| if k < m { 1nat } else { 0nat }, m) == m,
    decreases m,
{
    if m > 0 {
        lemma_sum_prefix_ones_exact(m - 1);
        lemma_sum_ext(
            |k: int| if k < m - 1 { 1nat } else { 0nat },
            |k: int| if k < m { 1nat } else { 0nat },
            m - 1,
        );
    }
}

/// Sliding a line keeps one tile per slot of the merge: its tiles less its merges.
proof fn lemma_slid_line_count(s: Seq<usize>)
    requires
        forall|k: int| 0 <= k < s.len() ==> is_cell_value(#[trigger] s[k]),
    ensures
        tile_count(slid_line(s)) + merge_count(s) == tile_count(s),
{
    lemma_merge_state(s);
    let out = merge_state(s).0;
    let t = slid_line(s);
    lemma_tile_count_sum(t);
    lemma_sum_ext(
        |k: int| occupied(t[k]),
        |k: int| if k < out.len() { 1nat } else { 0nat },
        s.len() as int,
    );
    lemma_sum_prefix_ones(out.len() as int, s.len() as int);
}

/// The tiles of a square grid, counted line by line in any direction.
proof fn lemma_lines_count(g: Seq<Seq<usize>>, n: int, d: Direction)
    requires
        is_square(g, n),
    ensures
        sum_to(|l: int| tile_count(line_values(g, n, d, l)), n) == grid_tiles(g, n),
{
    let cell = |x: int, y: int| occupied(g[y][x]);
    let rows = |y: int| sum_to(|x: int| cell(x, y), n);
    assert forall|y: int| 0 <= y < n implies #[trigger] tile_count(g[y]) == rows(y) by {
        lemma_tile_count_sum(g[y]);
        lemma_sum_ext(|k: int| occupied(g[y][k]), |x: int| cell(x, y), n);
    }
    lemma_sum_ext(|y: int| tile_count(g[y]), rows, n);
    let along = |l: int| sum_to(|k: int| cell(cell_x(n, d, l, k), cell_y(n, d, l, k)), n);
    assert forall|l: int| 0 <= l < n implies #[trigger] tile_count(line_values(g, n, d, l)) == along(l) by {
        let s = line_values(g, n, d, l);
        lemma_tile_count_sum(s);
        lemma_sum_ext(|k: int| occupied(s[k]), |k: int| cell(cell_x(n, d, l, k), cell_y(n, d, l, k)), n);
    }
    lemma_sum_ext(|l: int| tile_count(line_values(g, n, d, l)), along, n);
    let cols = |x: int| sum_to(|y: int| cell(x, y), n);
    match d {
        Direction::Left => {
            assert forall|l: int| 0 <= l < n implies #[trigger] along(l) == rows(l) by {
                lemma_sum_ext(
                    |k: int| cell(cell_x(n, d, l, k), cell_y(n, d, l, k)),
                    |x: int| cell(x, l),
                    n,
                );
            }
            lemma_sum_ext(along, rows, n);
        },
        Direction::Right => {
            assert forall|l: int| 0 <= l < n implies #[trigger] along(l) == rows(l) by {
                lemma_sum_ext(
                    |k: int| cell(cell_x(n, d, l, k), cell_y(n, d, l, k)),
                    |k: int| (|x: int| cell(x, l))(n - 1 - k),
                    n,
                );
                lemma_sum_reverse(|x: int| cell(x, l), n);
            }
            lemma_sum_ext(along, rows, n);
        },
        Direction::Up => {
            assert forall|l: int| 0 <= l < n implies #[trigger] along(l) == cols(l) by {
                lemma_sum_ext(
                    |k: int| cell(cell_x(n, d, l, k), cell_y(n, d, l, k)),
                    |y: int| cell(l, y),
                    n,
                );
            }
            lemma_sum_swap(cell, n, n);
            lemma_sum_ext(along, cols, n);
        },
        Direction::Down => {
            assert forall|l: int| 0 <= l < n implies #[trigger] along(l) == cols(l) by {
                lemma_sum_ext(
                    |k: int| cell(cell_x(n, d, l, k), cell_y(n, d, l, k)),
                    |k: int| (|y: int| cell(l, y))(n - 1 - k),
                    n,
                );
                lemma_sum_reverse(|y: int| cell(l, y), n);
            }
            lemma_sum_swap(cell, n, n);
            lemma_sum_ext(along, cols, n);
        },
    }
}

proof fn lemma_merges_sum(g: Seq<Seq<usize>>, n: int, d: Direction, lines: int)
    ensures
        merges_upto(g, n, d, lines) == sum_to(|l: int| merge_count(line_values(g, n, d, l)), lines),
    decreases lines,
{
    if lines > 0 {
        lemma_merges_sum(g, n, d, lines - 1);
    }
}

/// Sliding never adds tiles: the slid grid holds the tiles of the grid less
/// one for each merge of the slide.
pub proof fn lemma_slide_count(g: Seq<Seq<usize>>, n: int, d: Direction)
    requires
        is_square(g, n),
        forall|y: int, x: int| 0 <= y < n && 0 <= x < n ==> is_cell_value(#[trigger] g[y][x]),
    ensures
        grid_tiles(slid_grid(g, n, d), n) + grid_merges(g, n, d) == grid_tiles(g, n),
{
    let t = slid_grid(g, n, d);
    lemma_lines_count(g, n, d);
    lemma_lines_count(t, n, d);
    lemma_merges_sum(g, n, d, n);
    let slid_tiles = |l: int| tile_count(line_values(t, n, d, l));
    let merges = |l: int| merge_count(line_values(g, n, d, l));
    let tiles = |l: int| tile_count(line_values(g, n, d, l));
    assert forall|l: int| 0 <= l < n implies #[trigger] tiles(l) == slid_tiles(l) + merges(l) by {
        let s = line_values(g, n, d, l);
        assert(line_values(t, n, d, l) =~= slid_line(s));
        assert forall|k: int| 0 <= k < s.len() implies is_cell_value(#[trigger] s[k]) by {
            assert(s[k] == g[cell_y(n, d, l, k)][cell_x(n, d, l, k)]);
        }
        lemma_slid_line_count(s);
    }
    lemma_sum_ext(tiles, |l: int| slid_tiles(l) + merges(l), n);
    lemma_sum_add(slid_tiles, merges, n);
}

proof fn lemma_all_settled(mts: Seq<MovingTile>)
    requires
        in_flight(mts).len() == 0,
    ensures
        forall|i: int| 0 <= i < mts.len() ==> (#[trigger] mts[i]).finished(),
    decreases mts.len(),
{
    if mts.len() > 0 {
        let p = mts.drop_last();
        if !mts.last().finished() {
            assert(in_flight(mts).len() == in_flight(p).len() + 1);
        }
        lemma_all_settled(p);
        assert forall|i: int| 0 <= i < mts.len() implies (#[trigger] mts[i]).finished() by {
            if i < p.len() {
                assert(mts[i] == p[i]);
            }
        }
    }
}

/// Once every tile has arrived, the grid is the grid with all of them landed.
pub proof fn lemma_settled_is_landed(g: Seq<Seq<usize>>, n: int, score: u64, mts: Seq<MovingTile>)
    requires
        is_square(g, n),
        forall|i: int| 0 <= i < mts.len() ==> (#[trigger] mts[i]).finished(),
        forall|i: int| 0 <= i < mts.len() ==> (#[trigger] mts[i]).to_x < n && mts[i].to_y < n,
    ensures
        resolve(g, score, mts).0 == landed_grid(g, mts),
    decreases mts.len(),
{
    if mts.len() > 0 {
        let p = mts.drop_last();
        let m = mts.last();
        assert forall|i: int| 0 <= i < p.len() implies (#[trigger] p[i]).finished() && p[i].to_x < n && p[i].to_y < n by {
            assert(p[i] == mts[i]);
        }
        lemma_settled_is_landed(g, n, score, p);
        assert(mts[mts.len() - 1] == m);
        let r = resolve(g, score, mts).0;
        let l = landed_grid(g, mts);
        assert(r =~~= l) by {
            assert forall|y: int| 0 <= y < n implies #[trigger] r[y] =~= l[y] by {
                assert forall|x: int| 0 <= x < n implies #[trigger] r[y][x] == l[y][x] by {
                    assert(landed_grid(g, p)[y][x] == landed_at(g[y][x], p, x, y));
                }
            }
        }
    } else {
        assert(landed_grid(g, mts) =~~= g);
    }
}

/// Landing depends only on where tiles go and what they carry, not on how far
/// they have come.
proof fn lemma_landed_advance(v: usize, mts: Seq<MovingTile>, step: u64, x: int, y: int)
    ensures
        landed_at(v, advance_all(mts, step), x, y) == landed_at(v, mts, x, y),
    decreases mts.len(),
{
    if mts.len() > 0 {
        let p = mts.drop_last();
        assert(advance_all(mts, step).drop_last() =~= advance_all(p, step));
        lemma_landed_advance(v, p, step, x, y);
    }
}

/// After a slide and the arrival of every tile it sent, the grid holds as many
/// tiles as before the slide, less one for each merge: never more.
pub proof fn lemma_slide_settle_count(
    g0: Seq<Seq<usize>>,
    n: int,
    d: Direction,
    g_mid: Seq<Seq<usize>>,
    mts: Seq<MovingTile>,
    score: u64,
    step: u64,
)
    requires
        is_square(g0, n),
        forall|y: int, x: int| 0 <= y < n && 0 <= x < n ==> is_cell_value(#[trigger] g0[y][x]),
        is_square(g_mid, n),
        forall|i: int| 0 <= i < mts.len() ==> (#[trigger] mts[i]).to_x < n && mts[i].to_y < n,
        landed_grid(g_mid, mts) == slid_grid(g0, n, d),
        combine_count(mts) == grid_merges(g0, n, d),
        in_flight(advance_all(mts, step)).len() == 0,
    ensures
        grid_tiles(resolve(g_mid, score, advance_all(mts, step)).0, n) + combine_count(mts)
            == grid_tiles(g0, n),
{
    let adv = advance_all(mts, step);
    lemma_all_settled(adv);
    lemma_settled_is_landed(g_mid, n, score, adv);
    assert(landed_grid(g_mid, adv) =~~= landed_grid(g_mid, mts)) by {
        assert forall|y: int| 0 <= y < n implies #[trigger] landed_grid(g_mid, adv)[y] =~= landed_grid(g_mid, mts)[y] by {
            assert forall|x: int| 0 <= x < n implies #[trigger] landed_grid(g_mid, adv)[y][x] == landed_grid(g_mid, mts)[y][x] by {
                lemma_landed_advance(g_mid[y][x], mts, step, x, y);
            }
        }
    }
    lemma_slide_count(g0, n, d);
}

} // verus!
