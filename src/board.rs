use vstd::prelude::*;
use vstd::arithmetic::power2::pow2;
use crate::direction::{Direction, cell_at, cell_x, cell_y, line_of, pos_of, lemma_cell_round_trip};
use crate::rules::{
    EMPTY, TOP_RANK, is_cell_value, merge_state, merge_count, slid_line, lemma_merge_state, line_moves,
    line_rest, line_blocked, lemma_blocked_line,
};
use crate::tile::{Tile, MovingTile, MAX_SIDE, STEPS_PER_CELL, magnitude};
use crate::random::draw_below;
use crate::counting::is_square;

verus! {

/// Phase of the board between player commands.
#[derive(Clone, Copy, Debug, PartialEq, Eq, Structural)]
pub enum BoardState {
    /// Waiting for a command.
    Idle,
    /// Tiles are in flight; commands are ignored.
    Moving,
    /// No move is left; only a reset continues the game.
    GameOver,
}

/// Rank values of a grid of tiles, by row then column.
pub open spec fn grid_of(t: Seq<Vec<Tile>>) -> Seq<Seq<usize>> {
    t.map_values(|r: Vec<Tile>| r@.map_values(|c: Tile| c.value))
}

/// The cells of line `line` for direction `d`, from the edge the tiles move toward.
pub open spec fn line_values(g: Seq<Seq<usize>>, n: int, d: Direction, line: int) -> Seq<usize> {
    Seq::new(n as nat, |k: int| g[cell_y(n, d, line, k)][cell_x(n, d, line, k)])
}

/// The grid after sliding every line of an `n` by `n` grid in direction `d`.
pub open spec fn slid_grid(g: Seq<Seq<usize>>, n: int, d: Direction) -> Seq<Seq<usize>> {
    Seq::new(
        n as nat,
        |y: int|
            Seq::new(
                n as nat,
                |x: int| slid_line(line_values(g, n, d, line_of(n, d, x, y)))[pos_of(n, d, x, y)],
            ),
    )
}

/// Rank that cell (x, y), now holding `v`, holds once all of `mts` have
/// arrived in order.
pub open spec fn landed_at(v: usize, mts: Seq<MovingTile>, x: int, y: int) -> usize
    decreases mts.len(),
{
    if mts.len() == 0 {
        v
    } else if mts.last().to_x == x && mts.last().to_y == y {
        mts.last().landed_value()
    } else {
        landed_at(v, mts.drop_last(), x, y)
    }
}

/// The grid once all of `mts` have arrived in order.
pub open spec fn landed_grid(g: Seq<Seq<usize>>, mts: Seq<MovingTile>) -> Seq<Seq<usize>> {
    Seq::new(g.len(), |y: int| Seq::new(g[y].len(), |x: int| landed_at(g[y][x], mts, x, y)))
}

/// Whether some tile of `mts` is bound for cell (x, y).
pub open spec fn targets(mts: Seq<MovingTile>, x: int, y: int) -> bool {
    exists|i: int| 0 <= i < mts.len() && mts[i].to_x == x && mts[i].to_y == y
}

/// Number of tiles of `mts` that merge on arrival.
pub open spec fn combine_count(mts: Seq<MovingTile>) -> nat
    decreases mts.len(),
{
    if mts.len() == 0 {
        0
    } else if mts.last().combine {
        combine_count(mts.drop_last()) + 1
    } else {
        combine_count(mts.drop_last())
    }
}

proof fn lemma_landed_push(v: usize, mts: Seq<MovingTile>, m: MovingTile, x: int, y: int)
    ensures
        landed_at(v, mts.push(m), x, y) == if m.to_x == x && m.to_y == y {
            m.landed_value()
        } else {
            landed_at(v, mts, x, y)
        },
{
    assert(mts.push(m).drop_last() =~= mts);
}

proof fn lemma_landed_untargeted(v: usize, mts: Seq<MovingTile>, x: int, y: int)
    requires
        !targets(mts, x, y),
    ensures
        landed_at(v, mts, x, y) == v,
    decreases mts.len(),
{
    if mts.len() > 0 {
        let p = mts.drop_last();
        assert(!targets(p, x, y)) by {
            if targets(p, x, y) {
                let i = choose|i: int| 0 <= i < p.len() && p[i].to_x == x && p[i].to_y == y;
                assert(mts[i] == p[i]);
            }
        }
        assert(!(mts.last().to_x == x && mts.last().to_y == y)) by {
            assert(mts[mts.len() - 1] == mts.last());
        }
        lemma_landed_untargeted(v, p, x, y);
    }
}

proof fn lemma_combine_count_push(mts: Seq<MovingTile>, m: MovingTile)
    ensures
        combine_count(mts.push(m)) == combine_count(mts) + if m.combine { 1nat } else { 0nat },
{
    assert(mts.push(m).drop_last() =~= mts);
}

/// Rank that position `p` of line `line` holds once all of `mts` have arrived.
pub open spec fn landed_pos(g: Seq<Seq<usize>>, mts: Seq<MovingTile>, n: int, d: Direction, line: int, p: int) -> usize {
    landed_at(g[cell_y(n, d, line, p)][cell_x(n, d, line, p)], mts, cell_x(n, d, line, p), cell_y(n, d, line, p))
}

/// A tile sent along line `line` toward its edge, carrying the rank its source
/// held in `g0`, not yet under way, to a position before `bound`.
pub open spec fn new_move_ok(m: MovingTile, g0: Seq<Seq<usize>>, n: int, d: Direction, line: int, bound: int) -> bool {
    &&& m.valid(n as nat)
    &&& m.value == g0[m.from_y as int][m.from_x as int]
    &&& pos_of(n, d, m.to_x as int, m.to_y as int) < pos_of(n, d, m.from_x as int, m.from_y as int)
    &&& m.travelled == 0
    &&& line_of(n, d, m.to_x as int, m.to_y as int) == line
    &&& pos_of(n, d, m.to_x as int, m.to_y as int) < bound
    &&& line_of(n, d, m.from_x as int, m.from_y as int) == line
    &&& (m.from_x != m.to_x || m.from_y != m.to_y)
}

/// The tile in flight for a move `(from, to, rank, merges)` along line `line`.
pub open spec fn tile_of_move(n: int, d: Direction, line: int, mv: (int, int, usize, bool)) -> MovingTile {
    MovingTile {
        from_x: cell_x(n, d, line, mv.0) as usize,
        from_y: cell_y(n, d, line, mv.0) as usize,
        to_x: cell_x(n, d, line, mv.1) as usize,
        to_y: cell_y(n, d, line, mv.1) as usize,
        value: mv.2,
        combine: mv.3,
        travelled: 0,
    }
}

/// The tiles sent when line `line`, holding `s`, slides.
pub open spec fn line_tiles(s: Seq<usize>, n: int, d: Direction, line: int) -> Seq<MovingTile> {
    line_moves(s).map_values(|mv: (int, int, usize, bool)| tile_of_move(n, d, line, mv))
}

/// The tiles sent by lines `0 .. lines` of grid `g`, line after line.
pub open spec fn moves_upto(g: Seq<Seq<usize>>, n: int, d: Direction, lines: int) -> Seq<MovingTile>
    decreases lines,
{
    if lines <= 0 {
        Seq::empty()
    } else {
        moves_upto(g, n, d, lines - 1) + line_tiles(line_values(g, n, d, lines - 1), n, d, lines - 1)
    }
}

/// The tiles a slide of the `n` by `n` grid `g` in direction `d` sends.
pub open spec fn moves_of(g: Seq<Seq<usize>>, n: int, d: Direction) -> Seq<MovingTile> {
    moves_upto(g, n, d, n)
}

/// The grid while the tiles of a slide are in flight: every tile that moves
/// has left its cell; the other cells are as before.
pub open spec fn rest_grid(g: Seq<Seq<usize>>, n: int, d: Direction) -> Seq<Seq<usize>> {
    Seq::new(
        n as nat,
        |y: int|
            Seq::new(
                n as nat,
                |x: int| line_rest(line_values(g, n, d, line_of(n, d, x, y)))[pos_of(n, d, x, y)],
            ),
    )
}

/// Of two tiles bound for one cell, the first arrives plain and the second,
/// which starts farther from that cell, merges into it.
pub open spec fn lands_in_order(a: MovingTile, b: MovingTile, n: int, d: Direction) -> bool {
    (a.to_x == b.to_x && a.to_y == b.to_y) ==> {
        &&& !a.combine
        &&& b.combine
        &&& pos_of(n, d, a.from_x as int, a.from_y as int) < pos_of(n, d, b.from_x as int, b.from_y as int)
    }
}

/// A tile moving toward the edge along its line covers as many cells as the
/// positions it crosses.
proof fn lemma_move_cells(m: MovingTile, n: int, d: Direction)
    requires
        m.from_x < n && m.from_y < n && m.to_x < n && m.to_y < n,
        line_of(n, d, m.from_x as int, m.from_y as int) == line_of(n, d, m.to_x as int, m.to_y as int),
        pos_of(n, d, m.to_x as int, m.to_y as int) < pos_of(n, d, m.from_x as int, m.from_y as int),
    ensures
        m.cells() == pos_of(n, d, m.from_x as int, m.from_y as int) - pos_of(n, d, m.to_x as int, m.to_y as int),
        m.spec_distance() == m.cells() * STEPS_PER_CELL,
{
}

/// A board on which every tile is blocked in direction `d` (the cell next to
/// it toward the edge holds a tile of another rank, or there is none) sends no
/// tile when slid that way; `slide` then leaves it unchanged and idle.
pub proof fn lemma_blocked_board_sends_nothing(g: Seq<Seq<usize>>, n: int, d: Direction)
    requires
        forall|l: int| 0 <= l < n ==> line_blocked(#[trigger] line_values(g, n, d, l)),
    ensures
        moves_of(g, n, d).len() == 0,
{
    lemma_blocked_lines(g, n, d, n);
}

proof fn lemma_blocked_lines(g: Seq<Seq<usize>>, n: int, d: Direction, lines: int)
    requires
        lines <= n,
        forall|l: int| 0 <= l < n ==> line_blocked(#[trigger] line_values(g, n, d, l)),
    ensures
        moves_upto(g, n, d, lines).len() == 0,
    decreases lines,
{
    if lines > 0 {
        lemma_blocked_lines(g, n, d, lines - 1);
        lemma_blocked_line(line_values(g, n, d, lines - 1));
    }
}

/// Merges performed when sliding lines `0 .. lines` of grid `g`.
pub open spec fn merges_upto(g: Seq<Seq<usize>>, n: int, d: Direction, lines: int) -> nat
    decreases lines,
{
    if lines <= 0 {
        0
    } else {
        merges_upto(g, n, d, lines - 1) + merge_count(line_values(g, n, d, lines - 1))
    }
}

/// Merges performed when sliding the whole `n` by `n` grid `g` in direction `d`.
pub open spec fn grid_merges(g: Seq<Seq<usize>>, n: int, d: Direction) -> nat {
    merges_upto(g, n, d, n)
}

/// A grid with every one of its `n` by `n` cells empty.
pub open spec fn all_empty(g: Seq<Seq<usize>>, n: int) -> bool {
    &&& g.len() == n
    &&& forall|y: int| 0 <= y < n ==> (#[trigger] g[y]).len() == n
    &&& forall|y: int, x: int| 0 <= y < n && 0 <= x < n ==> #[trigger] g[y][x] == EMPTY
}

proof fn lemma_landed_extend(v: usize, m0: Seq<MovingTile>, m1: Seq<MovingTile>, x: int, y: int)
    requires
        m1.len() >= m0.len(),
        forall|i: int| 0 <= i < m0.len() ==> m1[i] == m0[i],
        forall|i: int| m0.len() <= i < m1.len() ==> !((#[trigger] m1[i]).to_x == x && m1[i].to_y == y),
    ensures
        landed_at(v, m1, x, y) == landed_at(v, m0, x, y),
    decreases m1.len(),
{
    if m1.len() == m0.len() {
        assert(m1 =~= m0);
    } else {
        let p = m1.drop_last();
        assert(m1[m1.len() - 1] == m1.last());
        lemma_landed_extend(v, m0, p, x, y);
    }
}

/// No cell of the `n` by `n` grid is empty and no two neighbours, side by side
/// or one above the other, hold the same rank.
pub open spec fn is_stuck(g: Seq<Seq<usize>>, n: int) -> bool {
    &&& forall|y: int, x: int| 0 <= y < n && 0 <= x < n ==> #[trigger] g[y][x] != EMPTY
    &&& forall|y: int, x: int| 0 <= y < n && 0 <= x && x + 1 < n ==> #[trigger] g[y][x] != g[y][x + 1]
    &&& forall|y: int, x: int| 0 <= y && y + 1 < n && 0 <= x < n ==> #[trigger] g[y][x] != g[y + 1][x]
}

/// Score after adding `gain`, held at the largest `u64`.
pub open spec fn add_points(score: u64, gain: nat) -> u64 {
    if score + gain > u64::MAX {
        u64::MAX
    } else {
        (score + gain) as u64
    }
}

/// Grid `g` once tile `m` has arrived.
pub open spec fn land_cell(g: Seq<Seq<usize>>, m: MovingTile) -> Seq<Seq<usize>> {
    g.update(m.to_y as int, g[m.to_y as int].update(m.to_x as int, m.landed_value()))
}

/// Grid and score once the finished tiles of `mts` have arrived, in order.
pub open spec fn resolve(g: Seq<Seq<usize>>, score: u64, mts: Seq<MovingTile>) -> (Seq<Seq<usize>>, u64)
    decreases mts.len(),
{
    if mts.len() == 0 {
        (g, score)
    } else {
        let (g1, s1) = resolve(g, score, mts.drop_last());
        let m = mts.last();
        if m.finished() {
            (land_cell(g1, m), add_points(s1, m.gain()))
        } else {
            (g1, s1)
        }
    }
}

/// The tiles of `mts` still on their way, in order.
pub open spec fn in_flight(mts: Seq<MovingTile>) -> Seq<MovingTile>
    decreases mts.len(),
{
    if mts.len() == 0 {
        mts
    } else if mts.last().finished() {
        in_flight(mts.drop_last())
    } else {
        in_flight(mts.drop_last()).push(mts.last())
    }
}

/// The tiles of `mts` after each has advanced `step` units.
pub open spec fn advance_all(mts: Seq<MovingTile>, step: u64) -> Seq<MovingTile> {
    mts.map_values(|m: MovingTile| m.advanced(step))
}

/// Empty cells of row `y` among its first `x` columns, as (column, row), left to right.
pub open spec fn row_empties(g: Seq<Seq<usize>>, y: int, x: int) -> Seq<(usize, usize)>
    decreases x,
{
    if x <= 0 {
        Seq::empty()
    } else if g[y][x - 1] == EMPTY {
        row_empties(g, y, x - 1).push(((x - 1) as usize, y as usize))
    } else {
        row_empties(g, y, x - 1)
    }
}

/// Empty cells of the first `y` rows of an `n`-wide grid, in reading order.
pub open spec fn empties_upto(g: Seq<Seq<usize>>, n: int, y: int) -> Seq<(usize, usize)>
    decreases y,
{
    if y <= 0 {
        Seq::empty()
    } else {
        empties_upto(g, n, y - 1) + row_empties(g, y - 1, n)
    }
}

/// Empty cells of the `n` by `n` grid `g`, as (column, row), in reading order.
pub open spec fn empties(g: Seq<Seq<usize>>, n: int) -> Seq<(usize, usize)> {
    empties_upto(g, n, n)
}

/// Grid `g` with rank `r` put at cell (x, y).
pub open spec fn put(g: Seq<Seq<usize>>, x: int, y: int, r: usize) -> Seq<Seq<usize>> {
    g.update(y, g[y].update(x, r))
}

/// `after` is `before` with one of its empty cells given a rank of 0 or 1, or
/// `before` itself when it has no empty cell.
pub open spec fn spawned_one(before: Seq<Seq<usize>>, after: Seq<Seq<usize>>, n: int) -> bool {
    if empties(before, n).len() == 0 {
        after == before
    } else {
        exists|i: int, r: usize|
            0 <= i < empties(before, n).len() && r <= 1 && after == put(
                before,
                empties(before, n)[i].0 as int,
                empties(before, n)[i].1 as int,
                r,
            )
    }
}

proof fn lemma_row_empties(g: Seq<Seq<usize>>, y: int, x: int)
    requires
        0 <= y <= usize::MAX,
        x <= usize::MAX,
    ensures
        forall|i: int| 0 <= i < row_empties(g, y, x).len() ==> {
            let c = #[trigger] row_empties(g, y, x)[i];
            &&& c.0 < x
            &&& c.1 == y
            &&& g[y][c.0 as int] == EMPTY
        },
        forall|x0: int| 0 <= x0 < x && g[y][x0] == EMPTY ==> row_empties(g, y, x).len() > 0,
    decreases x,
{
    if x > 0 {
        lemma_row_empties(g, y, x - 1);
        let p = row_empties(g, y, x - 1);
        let q = row_empties(g, y, x);
        assert forall|i: int| 0 <= i < q.len() implies {
            let c = #[trigger] q[i];
            &&& c.0 < x
            &&& c.1 == y
            &&& g[y][c.0 as int] == EMPTY
        } by {
            if i < p.len() {
                assert(q[i] == p[i]);
            }
        }
    }
}

proof fn lemma_empties_upto(g: Seq<Seq<usize>>, n: int, y: int)
    requires
        0 <= n <= usize::MAX,
        y <= usize::MAX,
    ensures
        forall|i: int| 0 <= i < empties_upto(g, n, y).len() ==> {
            let c = #[trigger] empties_upto(g, n, y)[i];
            &&& c.0 < n
            &&& c.1 < y
            &&& g[c.1 as int][c.0 as int] == EMPTY
        },
        forall|y0: int, x0: int|
            0 <= y0 < y && 0 <= x0 < n && #[trigger] g[y0][x0] == EMPTY ==> empties_upto(g, n, y).len() > 0,
    decreases y,
{
    if y > 0 {
        lemma_empties_upto(g, n, y - 1);
        lemma_row_empties(g, y - 1, n);
        let a = empties_upto(g, n, y - 1);
        let b = row_empties(g, y - 1, n);
        assert forall|i: int| 0 <= i < (a + b).len() implies {
            let c = #[trigger] (a + b)[i];
            &&& c.0 < n
            &&& c.1 < y
            &&& g[c.1 as int][c.0 as int] == EMPTY
        } by {
            if i >= a.len() {
                assert((a + b)[i] == b[i - a.len()]);
            }
        }
    }
}

/// Exactly one cell of the `n` by `n` grid holds a tile.
pub open spec fn exactly_one_tile(g: Seq<Seq<usize>>, n: int) -> bool {
    exists|x: int, y: int|
        0 <= x < n && 0 <= y < n && g[y][x] != EMPTY && forall|x2: int, y2: int|
            0 <= x2 < n && 0 <= y2 < n && (x2 != x || y2 != y) ==> #[trigger] g[y2][x2] == EMPTY
}

/// Merging is rank-additive: a tile of rank `r` that arrives to merge leaves a
/// tile of rank `r + 1` on its destination and adds `2^(r + 2)` to the score
/// (the score stops at the largest `u64`).
pub proof fn lemma_merge_adds_rank(g: Seq<Seq<usize>>, score: u64, m: MovingTile)
    requires
        m.combine,
        m.finished(),
        m.value < TOP_RANK,
        m.to_y < g.len(),
        m.to_x < g[m.to_y as int].len(),
    ensures
        resolve(g, score, seq![m]).0[m.to_y as int][m.to_x as int] == m.value + 1,
        resolve(g, score, seq![m]).1 == add_points(score, pow2((m.value + 2) as nat)),
{
    assert(seq![m].drop_last() =~= Seq::<MovingTile>::empty());
    assert(resolve(g, score, seq![m].drop_last()) == (g, score));
    assert((m.value + 1) as nat + 1 == (m.value + 2) as nat);
}

/// The engine of the game: resting tiles, tiles in flight, scores and phase.
pub struct PlayBoard {
    tiles: Vec<Vec<Tile>>,
    moving_tiles: Vec<MovingTile>,
    board_size: usize,
    state: BoardState,
    score: u64,
    highscore: u64,
}

impl PlayBoard {
    /// Side length of the board.
    pub closed spec fn size(&self) -> nat {
        self.board_size as nat
    }

    /// Resting cell values, by row then column.
    pub closed spec fn grid(&self) -> Seq<Seq<usize>> {
        grid_of(self.tiles@)
    }

    /// Tiles in flight, in the order they were sent.
    pub closed spec fn moving(&self) -> Seq<MovingTile> {
        self.moving_tiles@
    }

    pub closed spec fn phase(&self) -> BoardState {
        self.state
    }

    pub closed spec fn points(&self) -> u64 {
        self.score
    }

    pub closed spec fn best(&self) -> u64 {
        self.highscore
    }

    /// Shape of the grid, ranks in the cells, tiles in flight exactly while moving.
    pub closed spec fn wf(&self) -> bool {
        &&& self.shaped()
        &&& (self.state == BoardState::Moving <==> self.moving_tiles@.len() > 0)
    }

    /// Shape of the grid, ranks in the cells, tiles in flight that can land.
    pub closed spec fn shaped(&self) -> bool {
        let n = self.board_size as int;
        &&& n <= MAX_SIDE as int
        &&& self.tiles@.len() == n
        &&& forall|y: int| 0 <= y < n ==> (#[trigger] self.tiles@[y])@.len() == n
        &&& forall|y: int, x: int|
            0 <= y < n && 0 <= x < n ==> is_cell_value(#[trigger] grid_of(self.tiles@)[y][x])
        &&& forall|i: int|
            0 <= i < self.moving_tiles@.len() ==> (#[trigger] self.moving_tiles@[i]).valid(
                n as nat,
            )
    }

    /// A well-formed board has a square grid of ranks, and its tiles in flight
    /// are bound for cells of that grid.
    pub proof fn lemma_wf_square(&self)
        requires
            self.wf(),
        ensures
            is_square(self.grid(), self.size() as int),
            forall|y: int, x: int|
                0 <= y < self.size() && 0 <= x < self.size() ==> is_cell_value(#[trigger] self.grid()[y][x]),
            forall|i: int|
                0 <= i < self.moving().len() ==> (#[trigger] self.moving()[i]).to_x < self.size()
                    && self.moving()[i].to_y < self.size(),
    {
        assert forall|y: int| 0 <= y < self.size() implies (#[trigger] self.grid()[y]).len() == self.size() by {
            assert(self.tiles@[y]@.len() == self.size());
        }
        assert forall|i: int| 0 <= i < self.moving().len() implies (#[trigger] self.moving()[i]).to_x < self.size()
            && self.moving()[i].to_y < self.size() by {
            assert(self.moving_tiles@[i].valid(self.board_size as nat));
        }
    }

    /// An empty board of `board_size` by `board_size` cells, idle, scores at zero.
    pub fn new(board_size: usize) -> (b: PlayBoard)
        requires
            board_size as int <= MAX_SIDE as int,
        ensures
            b.wf(),
            b.size() == board_size,
            all_empty(b.grid(), board_size as int),
            b.moving().len() == 0,
            b.phase() == BoardState::Idle,
            b.points() == 0,
            b.best() == 0,
    {
        let mut tiles: Vec<Vec<Tile>> = Vec::new();
        let mut y: usize = 0;
        while y < board_size
            invariant
                y <= board_size,
                tiles@.len() == y,
                forall|j: int| 0 <= j < y ==> (#[trigger] tiles@[j])@.len() == board_size,
                forall|j: int, x: int| 0 <= j < y && 0 <= x < board_size ==> (#[trigger] tiles@[j]@[x]) == Tile::empty_spec(),
            decreases board_size - y,
        {
            let mut row: Vec<Tile> = Vec::new();
            let mut x: usize = 0;
            while x < board_size
                invariant
                    x <= board_size,
                    row@.len() == x,
                    forall|i: int| 0 <= i < x ==> (#[trigger] row@[i]) == Tile::empty_spec(),
                decreases board_size - x,
            {
                row.push(Tile::empty());
                x = x + 1;
            }
            tiles.push(row);
            y = y + 1;
        }
        PlayBoard {
            tiles,
            moving_tiles: Vec::new(),
            board_size,
            state: BoardState::Idle,
            score: 0,
            highscore: 0,
        }
    }

    /// Slides every tile as far as it goes in `direction`, merging equal pairs;
    /// ignored unless the board is idle. The tiles that move are sent in flight,
    /// line after line in scan order (`moves_of`), and their cells cleared
    /// (`rest_grid`). Of two tiles bound for one cell the first is plain and the
    /// second, starting farther away, merges; once all have arrived the grid is
    /// the slid grid.
    #[verifier::rlimit(100)]
    pub fn slide(&mut self, direction: Direction)
        requires
            old(self).wf(),
        ensures
            final(self).wf(),
            old(self).phase() != BoardState::Idle ==> *final(self) == *old(self),
            old(self).phase() == BoardState::Idle ==> {
                let n = old(self).size() as int;
                let mts = final(self).moving();
                &&& final(self).size() == old(self).size()
                &&& final(self).points() == old(self).points()
                &&& final(self).best() == old(self).best()
                &&& landed_grid(final(self).grid(), mts) == slid_grid(old(self).grid(), n, direction)
                &&& combine_count(mts) == grid_merges(old(self).grid(), n, direction)
                &&& forall|i: int|
                    0 <= i < mts.len() ==> {
                        let m = #[trigger] mts[i];
                        &&& m.travelled == 0
                        &&& m.value == old(self).grid()[m.from_y as int][m.from_x as int]
                        &&& final(self).grid()[m.from_y as int][m.from_x as int] == EMPTY
                        &&& line_of(n, direction, m.from_x as int, m.from_y as int) == line_of(
                            n,
                            direction,
                            m.to_x as int,
                            m.to_y as int,
                        )
                        &&& pos_of(n, direction, m.to_x as int, m.to_y as int) < pos_of(
                            n,
                            direction,
                            m.from_x as int,
                            m.from_y as int,
                        )
                    }
                &&& forall|i: int, j: int|
                    0 <= i < j < mts.len() && mts[i].combine && mts[j].combine ==> (mts[i].to_x
                        != mts[j].to_x || mts[i].to_y != mts[j].to_y)
                &&& forall|i: int, j: int|
                    0 <= i < j < mts.len() && mts[i].to_x == mts[j].to_x && mts[i].to_y == mts[j].to_y
                        ==> !mts[i].combine && mts[j].combine && mts[i].spec_distance()
                        < mts[j].spec_distance()
                &&& mts == moves_of(old(self).grid(), n, direction)
                &&& final(self).grid() == rest_grid(old(self).grid(), n, direction)
                &&& mts.len() == 0 ==> final(self).grid() == old(self).grid() && final(self).phase()
                    == BoardState::Idle
                &&& mts.len() > 0 ==> final(self).phase() == BoardState::Moving
            },
    {
        if self.state != BoardState::Idle {
            return;
        }
        let n = self.board_size;
        let ghost g0 = grid_of(self.tiles@);
        let ghost t0 = self.tiles@;
        let mut line: usize = 0;
        while line < n
            invariant
                n == self.board_size,
                n as int <= MAX_SIDE as int,
                line <= n,
                g0 == grid_of(t0),
                self.state == BoardState::Idle,
                self.score == old(self).score,
                self.highscore == old(self).highscore,
                self.tiles@.len() == n,
                forall|y: int| 0 <= y < n ==> (#[trigger] self.tiles@[y])@.len() == n,
                forall|y: int, x: int| 0 <= y < n && 0 <= x < n ==> is_cell_value(#[trigger] grid_of(self.tiles@)[y][x]),
                forall|y: int, x: int|
                    0 <= y < n && 0 <= x < n && line_of(n as int, direction, x, y) >= line ==> #[trigger] grid_of(self.tiles@)[y][x] == g0[y][x],
                forall|i: int|
                    0 <= i < self.moving_tiles@.len() ==> {
                        let m = #[trigger] self.moving_tiles@[i];
                        &&& m.valid(n as nat)
                        &&& m.travelled == 0
                        &&& (m.from_x != m.to_x || m.from_y != m.to_y)
                        &&& line_of(n as int, direction, m.to_x as int, m.to_y as int) < line
                        &&& line_of(n as int, direction, m.from_x as int, m.from_y as int) < line
                        &&& line_of(n as int, direction, m.from_x as int, m.from_y as int) == line_of(n as int, direction, m.to_x as int, m.to_y as int)
                        &&& m.value == g0[m.from_y as int][m.from_x as int]
                        &&& grid_of(self.tiles@)[m.from_y as int][m.from_x as int] == EMPTY
                        &&& pos_of(n as int, direction, m.to_x as int, m.to_y as int) < pos_of(n as int, direction, m.from_x as int, m.from_y as int)
                    },
                forall|i: int, j: int|
                    0 <= i < j < self.moving_tiles@.len() ==> lands_in_order(#[trigger] self.moving_tiles@[i], #[trigger] self.moving_tiles@[j], n as int, direction),
                combine_count(self.moving_tiles@) == merges_upto(g0, n as int, direction, line as int),
                forall|l: int, p: int| 0 <= l < line && 0 <= p < n ==> #[trigger] landed_pos(grid_of(self.tiles@), self.moving_tiles@, n as int, direction, l, p)
                    == slid_line(line_values(g0, n as int, direction, l))[p],
                self.moving_tiles@.len() == 0 ==> self.tiles@ == t0,
                self.moving_tiles@ == moves_upto(g0, n as int, direction, line as int),
                forall|y: int, x: int|
                    0 <= y < n && 0 <= x < n && line_of(n as int, direction, x, y) < line ==> #[trigger] grid_of(self.tiles@)[y][x]
                        == line_rest(line_values(g0, n as int, direction, line_of(n as int, direction, x, y)))[pos_of(n as int, direction, x, y)],
            decreases n - line,
        {
            let ghost ga = grid_of(self.tiles@);
            let ghost ma = self.moving_tiles@;
            proof {
                assert(line_values(ga, n as int, direction, line as int) =~= line_values(g0, n as int, direction, line as int)) by {
                    assert forall|k: int| 0 <= k < n implies #[trigger] line_values(ga, n as int, direction, line as int)[k] == line_values(g0, n as int, direction, line as int)[k] by {
                        lemma_cell_round_trip(n as int, direction, cell_x(n as int, direction, line as int, k), cell_y(n as int, direction, line as int, k));
                    }
                }
            }
            self.slide_line(direction, line);
            proof {
                let gb = grid_of(self.tiles@);
                let mb = self.moving_tiles@;
                assert(mb == moves_upto(g0, n as int, direction, line + 1));
                assert forall|y: int, x: int|
                    0 <= y < n && 0 <= x < n && line_of(n as int, direction, x, y) < line + 1 implies #[trigger] gb[y][x]
                        == line_rest(line_values(g0, n as int, direction, line_of(n as int, direction, x, y)))[pos_of(n as int, direction, x, y)] by {
                    lemma_cell_round_trip(n as int, direction, x, y);
                    if line_of(n as int, direction, x, y) < line {
                        assert(gb[y][x] == ga[y][x]);
                    } else {
                        let k = pos_of(n as int, direction, x, y);
                        assert(gb[cell_y(n as int, direction, line as int, k)][cell_x(n as int, direction, line as int, k)]
                            == line_rest(line_values(ga, n as int, direction, line as int))[k]);
                    }
                }
                assert forall|l: int, p: int| 0 <= l < line + 1 && 0 <= p < n implies #[trigger] landed_pos(gb, mb, n as int, direction, l, p)
                    == slid_line(line_values(g0, n as int, direction, l))[p] by {
                    if l < line {
                        let px = cell_x(n as int, direction, l, p);
                        let py = cell_y(n as int, direction, l, p);
                        lemma_cell_round_trip(n as int, direction, px, py);
                        assert forall|i: int| ma.len() <= i < mb.len() implies !((#[trigger] mb[i]).to_x == px && mb[i].to_y == py) by {
                            assert(new_move_ok(mb[i], ga, n as int, direction, line as int, n as int));
                        }
                        lemma_landed_extend(gb[py][px], ma, mb, px, py);
                        assert(gb[py][px] == ga[py][px]);
                        assert(landed_pos(ga, ma, n as int, direction, l, p) == slid_line(line_values(g0, n as int, direction, l))[p]);
                    } else {
                        assert(landed_pos(gb, mb, n as int, direction, line as int, p) == slid_line(line_values(ga, n as int, direction, line as int))[p]);
                    }
                }
                assert forall|i: int| 0 <= i < mb.len() implies {
                        let m = #[trigger] mb[i];
                        &&& m.valid(n as nat)
                        &&& m.travelled == 0
                        &&& (m.from_x != m.to_x || m.from_y != m.to_y)
                        &&& line_of(n as int, direction, m.to_x as int, m.to_y as int) < line + 1
                        &&& line_of(n as int, direction, m.from_x as int, m.from_y as int) < line + 1
                        &&& line_of(n as int, direction, m.from_x as int, m.from_y as int) == line_of(n as int, direction, m.to_x as int, m.to_y as int)
                        &&& m.value == g0[m.from_y as int][m.from_x as int]
                        &&& gb[m.from_y as int][m.from_x as int] == EMPTY
                        &&& pos_of(n as int, direction, m.to_x as int, m.to_y as int) < pos_of(n as int, direction, m.from_x as int, m.from_y as int)
                    } by {
                    if i < ma.len() {
                        assert(mb[i] == ma[i]);
                        lemma_cell_round_trip(n as int, direction, mb[i].from_x as int, mb[i].from_y as int);
                    } else {
                        lemma_cell_round_trip(n as int, direction, mb[i].from_x as int, mb[i].from_y as int);
                        assert(new_move_ok(mb[i], ga, n as int, direction, line as int, n as int));
                    }
                }
                assert forall|i: int, j: int|
                    0 <= i < j < mb.len() implies lands_in_order(#[trigger] mb[i], #[trigger] mb[j], n as int, direction) by {
                    if j >= ma.len() && i < ma.len() {
                        assert(mb[i] == ma[i]);
                        assert(new_move_ok(mb[j], ga, n as int, direction, line as int, n as int));
                        lemma_cell_round_trip(n as int, direction, mb[i].to_x as int, mb[i].to_y as int);
                    } else if j < ma.len() {
                        assert(mb[i] == ma[i]);
                        assert(mb[j] == ma[j]);
                    }
                }
            }
            line = line + 1;
        }
        proof {
            let g1 = grid_of(self.tiles@);
            let m1 = self.moving_tiles@;
            assert forall|i: int, j: int|
                0 <= i < j < m1.len() && m1[i].to_x == m1[j].to_x && m1[i].to_y == m1[j].to_y
                    implies !m1[i].combine && m1[j].combine && m1[i].spec_distance() < m1[j].spec_distance() by {
                assert(lands_in_order(m1[i], m1[j], n as int, direction));
                lemma_move_cells(m1[i], n as int, direction);
                lemma_move_cells(m1[j], n as int, direction);
            }
            assert(landed_grid(g1, m1) =~~= slid_grid(g0, n as int, direction)) by {
                assert forall|y: int, x: int| 0 <= y < n && 0 <= x < n implies #[trigger] landed_grid(g1, m1)[y][x] == slid_grid(g0, n as int, direction)[y][x] by {
                    lemma_cell_round_trip(n as int, direction, x, y);
                    assert(landed_pos(g1, m1, n as int, direction, line_of(n as int, direction, x, y), pos_of(n as int, direction, x, y))
                        == slid_line(line_values(g0, n as int, direction, line_of(n as int, direction, x, y)))[pos_of(n as int, direction, x, y)]);
                }
            }
        }
        proof {
            let g1 = grid_of(self.tiles@);
            assert(g1 =~~= rest_grid(g0, n as int, direction)) by {
                assert forall|y: int| 0 <= y < n implies #[trigger] g1[y] =~= rest_grid(g0, n as int, direction)[y] by {
                    assert forall|x: int| 0 <= x < n implies #[trigger] g1[y][x] == rest_grid(g0, n as int, direction)[y][x] by {
                        lemma_cell_round_trip(n as int, direction, x, y);
                    }
                }
            }
        }
        if self.moving_tiles.len() > 0 {
            self.state = BoardState::Moving;
        }
    }

    /// Whether no move is left: every cell holds a tile and no two neighbours,
    /// side by side or one above the other, hold the same rank.
    pub fn game_over(&self) -> (r: bool)
        requires
            self.wf(),
        ensures
            r == is_stuck(self.grid(), self.size() as int),
    {
        let n = self.board_size;
        let ghost g = self.grid();
        let mut y: usize = 0;
        while y < n
            invariant
                self.wf(),
                g == self.grid(),
                n == self.board_size,
                y <= n,
                forall|yy: int, x: int| 0 <= yy < y && 0 <= x < n ==> #[trigger] g[yy][x] != EMPTY,
                forall|yy: int, x: int| 0 <= yy < y && 0 <= x && x + 1 < n ==> #[trigger] g[yy][x] != g[yy][x + 1],
                forall|yy: int, x: int| 0 <= yy < y && yy + 1 < n && 0 <= x < n ==> #[trigger] g[yy][x] != g[yy + 1][x],
            decreases n - y,
        {
            let mut x: usize = 0;
            while x < n
                invariant
                    self.wf(),
                    g == self.grid(),
                    n == self.board_size,
                    y < n,
                    x <= n,
                    forall|yy: int, xx: int| 0 <= yy < y && 0 <= xx < n ==> #[trigger] g[yy][xx] != EMPTY,
                    forall|yy: int, xx: int| 0 <= yy < y && 0 <= xx && xx + 1 < n ==> #[trigger] g[yy][xx] != g[yy][xx + 1],
                    forall|yy: int, xx: int| 0 <= yy < y && yy + 1 < n && 0 <= xx < n ==> #[trigger] g[yy][xx] != g[yy + 1][xx],
                    forall|xx: int| 0 <= xx < x ==> #[trigger] g[y as int][xx] != EMPTY,
                    forall|xx: int| 0 <= xx < x && xx + 1 < n ==> #[trigger] g[y as int][xx] != g[y as int][xx + 1],
                    forall|xx: int| 0 <= xx < x && y + 1 < n ==> #[trigger] g[y as int][xx] != g[y + 1][xx],
                decreases n - x,
            {
                let v = self.tiles[y][x].value;
                assert(g[y as int][x as int] == v);
                if v == EMPTY {
                    return false;
                }
                if x + 1 < n && v == self.tiles[y][x + 1].value {
                    assert(g[y as int][x + 1] == v);
                    return false;
                }
                if y + 1 < n && v == self.tiles[y + 1][x].value {
                    assert(g[y + 1][x as int] == v);
                    return false;
                }
                x = x + 1;
            }
            y = y + 1;
        }
        true
    }

    /// The empty cells, as (column, row), in reading order.
    pub fn empty_cells(&self) -> (r: Vec<(usize, usize)>)
        requires
            self.wf(),
        ensures
            r@ == empties(self.grid(), self.size() as int),
    {
        let n = self.board_size;
        let ghost g = self.grid();
        let mut r: Vec<(usize, usize)> = Vec::new();
        let mut y: usize = 0;
        while y < n
            invariant
                self.wf(),
                g == self.grid(),
                n == self.board_size,
                y <= n,
                r@ == empties_upto(g, n as int, y as int),
            decreases n - y,
        {
            let mut x: usize = 0;
            while x < n
                invariant
                    self.wf(),
                    g == self.grid(),
                    n == self.board_size,
                    y < n,
                    x <= n,
                    r@ == empties_upto(g, n as int, y as int) + row_empties(g, y as int, x as int),
                decreases n - x,
            {
                let ghost before = r@;
                if self.tiles[y][x].value == EMPTY {
                    r.push((x, y));
                    assert(r@ =~= empties_upto(g, n as int, y as int) + row_empties(g, y as int, x + 1));
                } else {
                    assert(r@ =~= empties_upto(g, n as int, y as int) + row_empties(g, y as int, x + 1));
                }
                x = x + 1;
            }
            y = y + 1;
        }
        r
    }

    /// Puts a tile of rank `rank` on the `choice`-th empty cell in reading
    /// order; does nothing when there are not that many empty cells.
    pub fn place_tile(&mut self, choice: usize, rank: usize)
        requires
            old(self).wf(),
            rank <= TOP_RANK,
        ensures
            final(self).wf(),
            final(self).size() == old(self).size(),
            final(self).moving() == old(self).moving(),
            final(self).phase() == old(self).phase(),
            final(self).points() == old(self).points(),
            final(self).best() == old(self).best(),
            ({
                let e = empties(old(self).grid(), old(self).size() as int);
                if choice < e.len() {
                    final(self).grid() == put(old(self).grid(), e[choice as int].0 as int, e[choice as int].1 as int, rank)
                } else {
                    final(self).grid() == old(self).grid()
                }
            }),
    {
        let ghost g = self.grid();
        let cells = self.empty_cells();
        if choice < cells.len() {
            let (x, y) = cells[choice];
            proof {
                lemma_empties_upto(g, self.board_size as int, self.board_size as int);
                assert(cells@[choice as int] == (x, y));
            }
            self.set_value(x, y, rank);
            proof {
                let g1 = self.grid();
                assert forall|yy: int, xx: int|
                    0 <= yy < self.board_size && 0 <= xx < self.board_size implies is_cell_value(#[trigger] g1[yy][xx]) by {
                    if yy == y && xx == x {
                    } else {
                        assert(g1[yy][xx] == g[yy][xx]);
                    }
                }
            }
        }
    }

    /// Puts a tile of rank 0 or 1, drawn at random, on an empty cell drawn at
    /// random; does nothing on a full board.
    pub fn spawn_tile(&mut self)
        requires
            old(self).wf(),
        ensures
            final(self).wf(),
            final(self).size() == old(self).size(),
            final(self).moving() == old(self).moving(),
            final(self).phase() == old(self).phase(),
            final(self).points() == old(self).points(),
            final(self).best() == old(self).best(),
            spawned_one(old(self).grid(), final(self).grid(), old(self).size() as int),
    {
        let ghost g = self.grid();
        let count = self.empty_cells().len();
        if count > 0 {
            let choice = draw_below(count);
            let rank = draw_below(2);
            self.place_tile(choice, rank);
            proof {
                let e = empties(g, self.board_size as int);
                assert(self.grid() == put(g, e[choice as int].0 as int, e[choice as int].1 as int, rank));
            }
        }
    }

    /// Ends the game when the board is idle and no move is left, keeping the
    /// better of score and high score.
    pub fn check_game_over(&mut self)
        requires
            old(self).wf(),
        ensures
            final(self).wf(),
            final(self).size() == old(self).size(),
            final(self).grid() == old(self).grid(),
            final(self).moving() == old(self).moving(),
            final(self).points() == old(self).points(),
            old(self).phase() == BoardState::Idle && is_stuck(old(self).grid(), old(self).size() as int)
                ==> final(self).phase() == BoardState::GameOver && final(self).best() == if old(
                self,
            ).points() > old(self).best() {
                old(self).points()
            } else {
                old(self).best()
            },
            !(old(self).phase() == BoardState::Idle && is_stuck(old(self).grid(), old(self).size() as int))
                ==> *final(self) == *old(self),
    {
        if self.state == BoardState::Idle && self.game_over() {
            self.state = BoardState::GameOver;
            if self.score > self.highscore {
                self.highscore = self.score;
            }
        }
    }

    /// Settles a tile that has arrived: its destination takes the landed rank
    /// and a merge adds the new tile's number to the score.
    fn land(&mut self, m: MovingTile)
        requires
            old(self).shaped(),
            m.valid(old(self).board_size as nat),
        ensures
            final(self).shaped(),
            final(self).grid() == land_cell(old(self).grid(), m),
            final(self).score == add_points(old(self).score, m.gain()),
            final(self).moving_tiles == old(self).moving_tiles,
            final(self).board_size == old(self).board_size,
            final(self).state == old(self).state,
            final(self).highscore == old(self).highscore,
    {
        let ghost g = self.grid();
        let v = if m.combine { m.value + 1 } else { m.value };
        self.set_value(m.to_x, m.to_y, v);
        if m.combine {
            let gain = magnitude(m.value + 1);
            if self.score > u64::MAX - gain {
                self.score = u64::MAX;
            } else {
                self.score = self.score + gain;
            }
        }
        proof {
            let g1 = self.grid();
            assert forall|yy: int, xx: int|
                0 <= yy < self.board_size && 0 <= xx < self.board_size implies is_cell_value(#[trigger] g1[yy][xx]) by {
                if yy == m.to_y && xx == m.to_x {
                } else {
                    assert(g1[yy][xx] == g[yy][xx]);
                }
            }
        }
    }

    /// One time step: every tile in flight advances `step` units toward its
    /// destination; those that arrive settle in order. When the last one has
    /// settled the board goes idle, a new tile appears, and the game ends if no
    /// move is left.
    pub fn update(&mut self, step: u64)
        requires
            old(self).wf(),
        ensures
            final(self).wf(),
            final(self).size() == old(self).size(),
            old(self).phase() != BoardState::Moving ==> *final(self) == *old(self),
            old(self).phase() == BoardState::Moving ==> {
                let n = old(self).size() as int;
                let adv = advance_all(old(self).moving(), step);
                let (g1, s1) = resolve(old(self).grid(), old(self).points(), adv);
                &&& final(self).moving() == in_flight(adv)
                &&& final(self).points() == s1
                &&& in_flight(adv).len() > 0 ==> final(self).grid() == g1 && final(self).phase()
                    == BoardState::Moving && final(self).best() == old(self).best()
                &&& in_flight(adv).len() == 0 ==> {
                    &&& spawned_one(g1, final(self).grid(), n)
                    &&& is_stuck(final(self).grid(), n) ==> final(self).phase() == BoardState::GameOver
                        && final(self).best() == if s1 > old(self).best() {
                        s1
                    } else {
                        old(self).best()
                    }
                    &&& !is_stuck(final(self).grid(), n) ==> final(self).phase() == BoardState::Idle
                        && final(self).best() == old(self).best()
                }
            },
    {
        if self.state != BoardState::Moving {
            return;
        }
        let ghost adv = advance_all(self.moving_tiles@, step);
        let ghost g0 = self.grid();
        let ghost s0 = self.score;
        let n = self.board_size;
        let len = self.moving_tiles.len();
        let mut rest: Vec<MovingTile> = Vec::new();
        let mut i: usize = 0;
        proof {
            assert(adv.take(0) =~= Seq::<MovingTile>::empty());
        }
        while i < len
            invariant
                self.shaped(),
                n == self.board_size,
                len == self.moving_tiles@.len(),
                self.moving_tiles@ == old(self).moving_tiles@,
                adv == advance_all(old(self).moving_tiles@, step),
                g0 == grid_of(old(self).tiles@),
                s0 == old(self).score,
                i <= len,
                (grid_of(self.tiles@), self.score) == resolve(g0, s0, adv.take(i as int)),
                rest@ == in_flight(adv.take(i as int)),
                forall|j: int| 0 <= j < rest@.len() ==> (#[trigger] rest@[j]).valid(n as nat),
                self.state == BoardState::Moving,
                self.highscore == old(self).highscore,
            decreases len - i,
        {
            let mut m = self.moving_tiles[i];
            assert(m.valid(n as nat));
            m.advance(step);
            proof {
                assert(adv.take(i + 1).drop_last() =~= adv.take(i as int));
                assert(adv.take(i + 1).last() == m);
            }
            if m.is_finished() {
                self.land(m);
            } else {
                rest.push(m);
            }
            i = i + 1;
        }
        proof {
            assert(adv.take(len as int) =~= adv);
        }
        self.moving_tiles = rest;
        if self.moving_tiles.len() == 0 {
            self.state = BoardState::Idle;
            self.spawn_tile();
            self.check_game_over();
        }
    }

    /// Starts a new game from any phase: all cells cleared, nothing in flight,
    /// score at zero, idle, one new tile; the high score is kept.
    pub fn reset(&mut self)
        requires
            old(self).wf(),
        ensures
            final(self).wf(),
            final(self).size() == old(self).size(),
            final(self).moving().len() == 0,
            final(self).phase() == BoardState::Idle,
            final(self).points() == 0,
            final(self).best() == old(self).best(),
            spawned_one(Seq::new(old(self).size(), |y: int| Seq::new(old(self).size(), |x: int| EMPTY)), final(self).grid(), old(self).size() as int),
            old(self).size() > 0 ==> exactly_one_tile(final(self).grid(), old(self).size() as int),
    {
        let n = self.board_size;
        let ghost blank = Seq::new(n as nat, |y: int| Seq::new(n as nat, |x: int| EMPTY));
        self.moving_tiles = Vec::new();
        self.score = 0;
        self.state = BoardState::Idle;
        let mut y: usize = 0;
        while y < n
            invariant
                self.shaped(),
                n == self.board_size,
                y <= n,
                self.moving_tiles@.len() == 0,
                self.state == BoardState::Idle,
                self.score == 0,
                self.highscore == old(self).highscore,
                forall|yy: int, x: int| 0 <= yy < y && 0 <= x < n ==> #[trigger] grid_of(self.tiles@)[yy][x] == EMPTY,
            decreases n - y,
        {
            let mut x: usize = 0;
            while x < n
                invariant
                    self.shaped(),
                    n == self.board_size,
                    y < n,
                    x <= n,
                    self.moving_tiles@.len() == 0,
                    self.state == BoardState::Idle,
                    self.score == 0,
                    self.highscore == old(self).highscore,
                    forall|yy: int, xx: int| 0 <= yy < y && 0 <= xx < n ==> #[trigger] grid_of(self.tiles@)[yy][xx] == EMPTY,
                    forall|xx: int| 0 <= xx < x ==> #[trigger] grid_of(self.tiles@)[y as int][xx] == EMPTY,
                decreases n - x,
            {
                let ghost g = self.grid();
                self.set_value(x, y, EMPTY);
                proof {
                    let g1 = self.grid();
                    assert forall|yy: int, xx: int|
                        0 <= yy < n && 0 <= xx < n implies is_cell_value(#[trigger] g1[yy][xx]) by {
                        if yy == y && xx == x {
                        } else {
                            assert(g1[yy][xx] == g[yy][xx]);
                        }
                    }
                    assert forall|yy: int, xx: int| 0 <= yy < y && 0 <= xx < n implies #[trigger] g1[yy][xx] == EMPTY by {
                        assert(g1[yy][xx] == g[yy][xx]);
                    }
                    assert forall|xx: int| 0 <= xx < x + 1 implies #[trigger] g1[y as int][xx] == EMPTY by {
                        if xx < x {
                            assert(g1[y as int][xx] == g[y as int][xx]);
                        }
                    }
                }
                x = x + 1;
            }
            y = y + 1;
        }
        proof {
            assert(self.grid() =~~= blank);
        }
        self.spawn_tile();
        proof {
            if n > 0 {
                lemma_empties_upto(blank, n as int, n as int);
                assert(blank[0][0] == EMPTY);
                let e = empties(blank, n as int);
                let (i, r) = choose|i: int, r: usize|
                    0 <= i < e.len() && r <= 1 && self.grid() == put(blank, e[i].0 as int, e[i].1 as int, r);
                let g1 = self.grid();
                let cx = e[i].0 as int;
                let cy = e[i].1 as int;
                assert(g1[cy][cx] == r);
                assert forall|x2: int, y2: int|
                    0 <= x2 < n && 0 <= y2 < n && (x2 != cx || y2 != cy) implies #[trigger] g1[y2][x2] == EMPTY by {
                    assert(g1[y2][x2] == blank[y2][x2]);
                }
            }
        }
    }

    /// Side length of the board.
    pub fn board_size(&self) -> (r: usize)
        ensures
            r == self.size(),
    {
        self.board_size
    }

    /// Current score.
    pub fn score(&self) -> (r: u64)
        ensures
            r == self.points(),
    {
        self.score
    }

    /// Best score of the finished games.
    pub fn highscore(&self) -> (r: u64)
        ensures
            r == self.best(),
    {
        self.highscore
    }

    /// Current phase.
    pub fn state(&self) -> (r: BoardState)
        ensures
            r == self.phase(),
    {
        self.state
    }

    /// Rank at cell (x, y), or `EMPTY`.
    pub fn value_at(&self, x: usize, y: usize) -> (r: usize)
        requires
            self.wf(),
            x < self.size(),
            y < self.size(),
        ensures
            r == self.grid()[y as int][x as int],
    {
        self.tiles[y][x].value
    }

    /// Tiles in flight, in the order they were sent.
    pub fn moving_tiles(&self) -> (r: &Vec<MovingTile>)
        ensures
            r@ == self.moving(),
    {
        &self.moving_tiles
    }

    /// Sets the rank of cell (x, y).
    fn set_value(&mut self, x: usize, y: usize, v: usize)
        requires
            y < old(self).tiles@.len(),
            x < old(self).tiles@[y as int]@.len(),
        ensures
            final(self).tiles@.len() == old(self).tiles@.len(),
            forall|j: int| 0 <= j < old(self).tiles@.len() ==> (#[trigger] final(self).tiles@[j])@.len() == old(self).tiles@[j]@.len(),
            grid_of(final(self).tiles@) == grid_of(old(self).tiles@).update(
                y as int,
                grid_of(old(self).tiles@)[y as int].update(x as int, v),
            ),
            final(self).moving_tiles == old(self).moving_tiles,
            final(self).board_size == old(self).board_size,
            final(self).state == old(self).state,
            final(self).score == old(self).score,
            final(self).highscore == old(self).highscore,
    {
        let ghost t = self.tiles@;
        self.tiles[y][x].value = v;
        proof {
            assert(grid_of(self.tiles@) =~~= grid_of(t).update(
                y as int,
                grid_of(t)[y as int].update(x as int, v),
            ));
        }
    }

    /// Slides line `line` toward its edge against the grid as it stands, sending
    /// the tiles that move and clearing the cells they leave.
    #[verifier::rlimit(100)]
    fn slide_line(&mut self, d: Direction, line: usize)
        requires
            old(self).shaped(),
            line < old(self).board_size,
            forall|i: int|
                0 <= i < old(self).moving_tiles@.len() ==> line_of(
                    old(self).board_size as int,
                    d,
                    (#[trigger] old(self).moving_tiles@[i]).to_x as int,
                    old(self).moving_tiles@[i].to_y as int,
                ) != line,
        ensures
            final(self).board_size == old(self).board_size,
            final(self).state == old(self).state,
            final(self).score == old(self).score,
            final(self).highscore == old(self).highscore,
            final(self).tiles@.len() == old(self).board_size,
            forall|y: int| 0 <= y < old(self).board_size ==> (#[trigger] final(self).tiles@[y])@.len() == old(self).board_size,
            ({
                let n = old(self).board_size as int;
                let g0 = grid_of(old(self).tiles@);
                let g1 = grid_of(final(self).tiles@);
                let m0 = old(self).moving_tiles@;
                let m1 = final(self).moving_tiles@;
                let s = line_values(g0, n, d, line as int);
                &&& m1.len() >= m0.len()
                &&& forall|i: int| 0 <= i < m0.len() ==> m1[i] == m0[i]
                &&& forall|i: int|
                    m0.len() <= i < m1.len() ==> new_move_ok(#[trigger] m1[i], g0, n, d, line as int, n)
                &&& forall|i: int, j: int|
                    m0.len() <= i < j < m1.len() ==> lands_in_order(#[trigger] m1[i], #[trigger] m1[j], n, d)
                &&& combine_count(m1) == combine_count(m0) + merge_count(s)
                &&& forall|y: int, x: int|
                    0 <= y < n && 0 <= x < n && line_of(n, d, x, y) != line ==> #[trigger] g1[y][x]
                        == g0[y][x]
                &&& forall|y: int, x: int|
                    0 <= y < n && 0 <= x < n ==> is_cell_value(#[trigger] g1[y][x])
                &&& forall|k: int|
                    0 <= k < n ==> #[trigger] landed_pos(g1, m1, n, d, line as int, k) == slid_line(s)[k]
                &&& forall|i: int|
                    m0.len() <= i < m1.len() ==> #[trigger] g1[m1[i].from_y as int][m1[i].from_x as int] == EMPTY
                &&& m1.len() == m0.len() ==> final(self).tiles@ == old(self).tiles@
                &&& m1 == m0 + line_tiles(s, n, d, line as int)
                &&& forall|k: int|
                    0 <= k < n ==> #[trigger] g1[cell_y(n, d, line as int, k)][cell_x(n, d, line as int, k)]
                        == line_rest(s)[k]
            }),
    {
        let n = self.board_size;
        let ghost g0 = grid_of(self.tiles@);
        let ghost t0 = self.tiles@;
        let ghost m0 = self.moving_tiles@;
        let ghost s = line_values(g0, n as int, d, line as int);
        let mut k: usize = 0;
        let mut target: usize = 0;
        let mut open = false;
        let mut last: usize = EMPTY;
        proof {
            assert(s.take(0) =~= Seq::<usize>::empty());
        }
        while k < n
            invariant
                n == self.board_size,
                n as int <= MAX_SIDE as int,
                line < n,
                k <= n,
                g0 == grid_of(t0),
                t0.len() == n,
                forall|y: int| 0 <= y < n ==> (#[trigger] t0[y])@.len() == n,
                forall|y: int, x: int| 0 <= y < n && 0 <= x < n ==> is_cell_value(#[trigger] g0[y][x]),
                s == line_values(g0, n as int, d, line as int),
                forall|i: int|
                    0 <= i < m0.len() ==> line_of(
                        n as int,
                        d,
                        (#[trigger] m0[i]).to_x as int,
                        m0[i].to_y as int,
                    ) != line,
                target <= k,
                merge_state(s.take(k as int)).0.len() == target,
                merge_state(s.take(k as int)).1 == open,
                open ==> target > 0 && last == merge_state(s.take(k as int)).0[target - 1],
                forall|p: int|
                    0 <= p < target ==> #[trigger] landed_pos(grid_of(self.tiles@), self.moving_tiles@, n as int, d, line as int, p)
                        == merge_state(s.take(k as int)).0[p],
                combine_count(self.moving_tiles@) == combine_count(m0) + merge_count(s.take(k as int)),
                forall|i: int|
                    m0.len() <= i < self.moving_tiles@.len() && (#[trigger] self.moving_tiles@[i]).combine
                        && open ==> pos_of(
                        n as int,
                        d,
                        self.moving_tiles@[i].to_x as int,
                        self.moving_tiles@[i].to_y as int,
                    ) != target - 1,
                self.tiles@.len() == n,
                forall|y: int| 0 <= y < n ==> (#[trigger] self.tiles@[y])@.len() == n,
                forall|y: int, x: int| 0 <= y < n && 0 <= x < n ==> is_cell_value(#[trigger] grid_of(self.tiles@)[y][x]),
                forall|y: int, x: int|
                    0 <= y < n && 0 <= x < n && (line_of(n as int, d, x, y) != line || pos_of(
                        n as int,
                        d,
                        x,
                        y,
                    ) >= k) ==> #[trigger] grid_of(self.tiles@)[y][x] == g0[y][x],
                forall|y: int, x: int|
                    0 <= y < n && 0 <= x < n && line_of(n as int, d, x, y) == line && target <= pos_of(
                        n as int,
                        d,
                        x,
                        y,
                    ) < k ==> #[trigger] grid_of(self.tiles@)[y][x] == EMPTY,
                self.moving_tiles@.len() >= m0.len(),
                forall|i: int| 0 <= i < m0.len() ==> self.moving_tiles@[i] == m0[i],
                forall|i: int|
                    m0.len() <= i < self.moving_tiles@.len() ==> new_move_ok(#[trigger] self.moving_tiles@[i], g0, n as int, d, line as int, target as int),
                forall|i: int|
                    m0.len() <= i < self.moving_tiles@.len() ==> pos_of(n as int, d, (#[trigger] self.moving_tiles@[i]).from_x as int, self.moving_tiles@[i].from_y as int) < k,
                forall|i: int, j: int|
                    m0.len() <= i < j < self.moving_tiles@.len() ==> lands_in_order(#[trigger] self.moving_tiles@[i], #[trigger] self.moving_tiles@[j], n as int, d),
                forall|i: int|
                    m0.len() <= i < self.moving_tiles@.len() ==> #[trigger] grid_of(self.tiles@)[self.moving_tiles@[i].from_y as int][self.moving_tiles@[i].from_x as int] == EMPTY,
                self.moving_tiles@.len() == m0.len() ==> self.tiles@ == t0,
                self.moving_tiles@ == m0 + line_tiles(s.take(k as int), n as int, d, line as int),
                line_rest(s.take(k as int)).len() == k,
                forall|p: int|
                    0 <= p < k ==> #[trigger] grid_of(self.tiles@)[cell_y(n as int, d, line as int, p)][cell_x(n as int, d, line as int, p)]
                        == line_rest(s.take(k as int))[p],
                self.board_size == old(self).board_size,
                self.state == old(self).state,
                self.score == old(self).score,
                self.highscore == old(self).highscore,
            decreases n - k,
        {
            let (x, y) = cell_at(n, d, line, k);
            let v = self.tiles[y][x].value;
            let ghost g = grid_of(self.tiles@);
            let ghost before = self.moving_tiles@;
            let ghost sk = s.take(k as int);
            proof {
                assert(g[y as int][x as int] == v);
                assert(g[y as int][x as int] == g0[y as int][x as int]);
                assert(s.take(k as int + 1).drop_last() =~= sk);
                assert(s.take(k as int + 1).last() == s[k as int]);
                assert(s[k as int] == v);
                assert forall|j: int| 0 <= j < sk.len() implies is_cell_value(#[trigger] sk[j]) by {
                    assert(sk[j] == s[j]);
                    lemma_cell_round_trip(n as int, d, cell_x(n as int, d, line as int, j), cell_y(n as int, d, line as int, j));
                }
                lemma_merge_state(sk);
                assert(is_cell_value(v));
            }
            let ghost open0 = open;
            let ghost target0 = target;
            if v != EMPTY {
                let dest: usize;
                let combine: bool;
                if open && last == v && v < TOP_RANK {
                    dest = target - 1;
                    combine = true;
                    open = false;
                } else {
                    dest = target;
                    combine = false;
                    target = target + 1;
                    open = true;
                    last = v;
                }
                if dest != k {
                    let (tx, ty) = cell_at(n, d, line, dest);
                    let m = MovingTile::new(x, y, tx, ty, v, combine);
                    self.moving_tiles.push(m);
                    self.set_value(x, y, EMPTY);
                    proof {
                        lemma_combine_count_push(before, m);
                        let g2 = grid_of(self.tiles@);
                        assert forall|p: int| 0 <= p < target implies #[trigger] landed_pos(g2, self.moving_tiles@, n as int, d, line as int, p)
                            == merge_state(s.take(k as int + 1)).0[p] by {
                            let px = cell_x(n as int, d, line as int, p);
                            let py = cell_y(n as int, d, line as int, p);
                            lemma_cell_round_trip(n as int, d, px, py);
                            lemma_landed_push(g2[py][px], before, m, px, py);
                            if p != dest {
                                assert(g2[py][px] == g[py][px]);
                                assert(landed_pos(g, before, n as int, d, line as int, p) == merge_state(sk).0[p]);
                            }
                        }
                        assert forall|i: int, j: int|
                            m0.len() <= i < j < self.moving_tiles@.len() implies lands_in_order(#[trigger] self.moving_tiles@[i], #[trigger] self.moving_tiles@[j], n as int, d) by {
                            let mts = self.moving_tiles@;
                            assert(mts[i] == before[i]);
                            if j < before.len() {
                                assert(mts[j] == before[j]);
                            } else {
                                assert(new_move_ok(before[i], g0, n as int, d, line as int, target0 as int));
                                assert(pos_of(n as int, d, before[i].from_x as int, before[i].from_y as int) < k);
                                lemma_cell_round_trip(n as int, d, before[i].to_x as int, before[i].to_y as int);
                                lemma_cell_round_trip(n as int, d, m.to_x as int, m.to_y as int);
                                if combine {
                                    assert(open0);
                                }
                            }
                        }
                        assert forall|i: int| m0.len() <= i < self.moving_tiles@.len() implies new_move_ok(#[trigger] self.moving_tiles@[i], g0, n as int, d, line as int, target as int) by {
                            if i < before.len() {
                                assert(self.moving_tiles@[i] == before[i]);
                            }
                        }
                    }
                } else {
                    proof {
                        assert(!targets(self.moving_tiles@, x as int, y as int)) by {
                            if targets(self.moving_tiles@, x as int, y as int) {
                                let i = choose|i: int| 0 <= i < self.moving_tiles@.len() && self.moving_tiles@[i].to_x == x && self.moving_tiles@[i].to_y == y;
                                if i < m0.len() {
                                    assert(self.moving_tiles@[i] == m0[i]);
                                } else {
                                    assert(new_move_ok(self.moving_tiles@[i], g0, n as int, d, line as int, k as int));
                                }
                            }
                        }
                        lemma_landed_untargeted(v, self.moving_tiles@, x as int, y as int);
                    }
                }
            }
            k = k + 1;
        }
        proof {
            assert(s.take(n as int) =~= s);
            lemma_merge_state(s);
            let g1 = grid_of(self.tiles@);
            let m1 = self.moving_tiles@;
            assert forall|p: int| 0 <= p < n implies #[trigger] landed_pos(g1, m1, n as int, d, line as int, p) == slid_line(s)[p] by {
                if p >= target {
                    let px = cell_x(n as int, d, line as int, p);
                    let py = cell_y(n as int, d, line as int, p);
                    lemma_cell_round_trip(n as int, d, px, py);
                    assert(!targets(m1, px, py)) by {
                        if targets(m1, px, py) {
                            let i = choose|i: int| 0 <= i < m1.len() && m1[i].to_x == px && m1[i].to_y == py;
                            if i < m0.len() {
                                assert(m1[i] == m0[i]);
                            } else {
                                assert(new_move_ok(m1[i], g0, n as int, d, line as int, target as int));
                            }
                        }
                    }
                    lemma_landed_untargeted(g1[py][px], m1, px, py);
                }
            }
        }
    }
}

} // verus!
