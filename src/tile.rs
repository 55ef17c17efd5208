use vstd::prelude::*;
use vstd::arithmetic::power2::*;
use crate::rules::{EMPTY, TOP_RANK};

verus! {

/// Largest side length of a board: `u64::MAX / (2 * STEPS_PER_CELL)`, so that
/// any distance between two cells, in units, fits a `u64`.
pub const MAX_SIDE: u64 = 9223372036854775;

/// Distance units a moving tile covers to cross one cell.
pub const STEPS_PER_CELL: u64 = 1000;

/// A resting cell of the grid.
#[derive(Clone, Copy, Debug, PartialEq, Eq, Structural)]
pub struct Tile {
    /// Rank of the tile here, or `EMPTY`.
    pub value: usize,
}

impl Tile {
    pub open spec fn empty_spec() -> Tile {
        Tile { value: EMPTY }
    }

    /// A resting tile of the given rank.
    pub fn new(value: usize) -> (t: Tile)
        ensures
            t == (Tile { value }),
    {
        Tile { value }
    }

    /// A cell without a tile.
    pub fn empty() -> (t: Tile)
        ensures
            t == (Tile { value: EMPTY }),
    {
        Tile { value: EMPTY }
    }

    /// Clears the cell.
    pub fn reset(&mut self)
        ensures
            *final(self) == (Tile { value: EMPTY }),
    {
        *self = Tile::empty();
    }
}

/// The displayed number of a tile of rank `rank`: two to the power `rank + 1`.
pub open spec fn spec_magnitude(rank: nat) -> nat {
    pow2(rank + 1)
}

/// Two to the power `rank + 1`, the number a tile of rank `rank` shows.
pub fn magnitude(rank: usize) -> (m: u64)
    requires
        rank <= TOP_RANK,
    ensures
        m == spec_magnitude(rank as nat),
{
    let mut m: u64 = 2;
    let mut i: usize = 0;
    proof {
        lemma2_to64();
        lemma2_to64_rest();
    }
    while i < rank
        invariant
            i <= rank,
            rank <= TOP_RANK,
            m == pow2((i + 1) as nat),
        decreases rank - i,
    {
        proof {
            lemma_pow2_unfold((i + 2) as nat);
            if i + 2 < 64 {
                lemma_pow2_strictly_increases((i + 2) as nat, 64);
            }
            lemma2_to64_rest();
        }
        m = m * 2;
        i = i + 1;
    }
    m
}

/// A tile in flight from one cell to another along a row or a column.
#[derive(Clone, Copy, Debug, PartialEq, Eq, Structural)]
pub struct MovingTile {
    pub from_x: usize,
    pub from_y: usize,
    pub to_x: usize,
    pub to_y: usize,
    /// Rank carried.
    pub value: usize,
    /// Whether arrival merges with the tile at the destination.
    pub combine: bool,
    /// Distance covered so far, in units of `STEPS_PER_CELL` per cell.
    pub travelled: u64,
}

impl MovingTile {
    /// Number of cells between source and destination.
    pub open spec fn cells(&self) -> nat {
        let dx = if self.from_x >= self.to_x { self.from_x - self.to_x } else { self.to_x - self.from_x };
        let dy = if self.from_y >= self.to_y { self.from_y - self.to_y } else { self.to_y - self.from_y };
        (dx + dy) as nat
    }

    pub open spec fn spec_distance(&self) -> nat {
        self.cells() * (STEPS_PER_CELL as nat)
    }

    pub open spec fn finished(&self) -> bool {
        self.travelled == self.spec_distance()
    }

    /// The rank the destination holds once this tile has arrived.
    pub open spec fn landed_value(&self) -> usize {
        if self.combine { (self.value + 1) as usize } else { self.value }
    }

    /// Score earned on arrival.
    pub open spec fn gain(&self) -> nat {
        if self.combine { spec_magnitude((self.value + 1) as nat) } else { 0 }
    }

    /// Endpoints on an `n` by `n` board, a rank that can land, progress within bounds.
    pub open spec fn valid(&self, n: nat) -> bool {
        &&& n <= MAX_SIDE as int
        &&& self.from_x < n && self.from_y < n && self.to_x < n && self.to_y < n
        &&& self.value <= TOP_RANK
        &&& self.combine ==> self.value < TOP_RANK
        &&& self.travelled <= self.spec_distance()
    }

    /// The position after advancing by `step` units, stopping at the destination.
    pub open spec fn advanced(&self, step: u64) -> MovingTile {
        let t = if self.travelled + step >= self.spec_distance() {
            self.spec_distance() as u64
        } else {
            (self.travelled + step) as u64
        };
        MovingTile { travelled: t, ..*self }
    }

    /// A tile leaving (from_x, from_y) for (to_x, to_y), not yet under way.
    pub fn new(from_x: usize, from_y: usize, to_x: usize, to_y: usize, value: usize, combine: bool) -> (m: MovingTile)
        ensures
            m == (MovingTile { from_x, from_y, to_x, to_y, value, combine, travelled: 0 }),
    {
        MovingTile { from_x, from_y, to_x, to_y, value, combine, travelled: 0 }
    }

    /// Total distance to cover, in units.
    pub fn distance(&self) -> (d: u64)
        requires
            self.from_x as int <= MAX_SIDE as int,
            self.from_y as int <= MAX_SIDE as int,
            self.to_x as int <= MAX_SIDE as int,
            self.to_y as int <= MAX_SIDE as int,
        ensures
            d == self.spec_distance(),
    {
        let dx = if self.from_x >= self.to_x { self.from_x - self.to_x } else { self.to_x - self.from_x };
        let dy = if self.from_y >= self.to_y { self.from_y - self.to_y } else { self.to_y - self.from_y };
        assert(MAX_SIDE == 9223372036854775);
        assert((dx + dy) * 1000 <= u64::MAX) by (nonlinear_arith)
            requires
                dx <= 9223372036854775,
                dy <= 9223372036854775,
        ;
        (dx as u64 + dy as u64) * STEPS_PER_CELL
    }

    /// Moves the tile `step` units toward its destination, never past it.
    pub fn advance(&mut self, step: u64)
        requires
            old(self).valid(MAX_SIDE as nat),
        ensures
            *final(self) == old(self).advanced(step),
    {
        let d = self.distance();
        if step >= d - self.travelled {
            self.travelled = d;
        } else {
            self.travelled = self.travelled + step;
        }
    }

    /// Whether the tile has reached its destination.
    pub fn is_finished(&self) -> (r: bool)
        requires
            self.valid(MAX_SIDE as nat),
        ensures
            r == self.finished(),
    {
        self.travelled == self.distance()
    }
}

/// Progress `t` along a path of length `dist`, stopping at its end.
pub open spec fn progress(t: int, dist: nat) -> int {
    if t >= dist { dist as int } else { t }
}

/// Tiles sent together advance in step: if both have covered `t` units (each
/// stopped at its destination), then after any step both have covered `t +
/// step`, and the farther one arrives only once the nearer one has.
pub proof fn lemma_nearer_arrives_first(a: MovingTile, b: MovingTile, t: int, step: u64)
    requires
        t >= 0,
        a.travelled == progress(t, a.spec_distance()),
        b.travelled == progress(t, b.spec_distance()),
        a.spec_distance() < b.spec_distance(),
        b.spec_distance() <= u64::MAX,
    ensures
        a.advanced(step).travelled == progress(t + step, a.spec_distance()),
        b.advanced(step).travelled == progress(t + step, b.spec_distance()),
        b.advanced(step).finished() ==> a.advanced(step).finished(),
{
}

} // verus!
