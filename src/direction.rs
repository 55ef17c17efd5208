use vstd::prelude::*;

verus! {

/// The four directions in which the board can be slid.
#[derive(Clone, Copy, Debug, PartialEq, Eq, Structural)]
pub enum Direction {
    Left,
    Right,
    Up,
    Down,
}

// A slide works line by line. Line `line` is the row (Left, Right) or the
// column (Up, Down) of that index; position `k` counts cells along it from
// the edge the tiles move toward.

/// Column of the `k`-th cell of a line.
pub open spec fn cell_x(n: int, d: Direction, line: int, k: int) -> int {
    match d {
        Direction::Left => k,
        Direction::Right => n - 1 - k,
        Direction::Up => line,
        Direction::Down => line,
    }
}

/// Row of the `k`-th cell of a line.
pub open spec fn cell_y(n: int, d: Direction, line: int, k: int) -> int {
    match d {
        Direction::Left => line,
        Direction::Right => line,
        Direction::Up => k,
        Direction::Down => n - 1 - k,
    }
}

/// The line that holds cell (x, y).
pub open spec fn line_of(n: int, d: Direction, x: int, y: int) -> int {
    match d {
        Direction::Left | Direction::Right => y,
        Direction::Up | Direction::Down => x,
    }
}

/// The position of cell (x, y) along its line.
pub open spec fn pos_of(n: int, d: Direction, x: int, y: int) -> int {
    match d {
        Direction::Left => x,
        Direction::Right => n - 1 - x,
        Direction::Up => y,
        Direction::Down => n - 1 - y,
    }
}

/// Coordinates (x, y) of the `k`-th cell of line `line`.
pub fn cell_at(n: usize, d: Direction, line: usize, k: usize) -> (r: (usize, usize))
    requires
        line < n,
        k < n,
    ensures
        r.0 == cell_x(n as int, d, line as int, k as int),
        r.1 == cell_y(n as int, d, line as int, k as int),
        r.0 < n,
        r.1 < n,
        line_of(n as int, d, r.0 as int, r.1 as int) == line,
        pos_of(n as int, d, r.0 as int, r.1 as int) == k,
{
    match d {
        Direction::Left => (k, line),
        Direction::Right => (n - 1 - k, line),
        Direction::Up => (line, k),
        Direction::Down => (line, n - 1 - k),
    }
}

/// Each cell lies on exactly one line, at one position.
pub proof fn lemma_cell_round_trip(n: int, d: Direction, x: int, y: int)
    requires
        0 <= x < n,
        0 <= y < n,
    ensures
        0 <= line_of(n, d, x, y) < n,
        0 <= pos_of(n, d, x, y) < n,
        cell_x(n, d, line_of(n, d, x, y), pos_of(n, d, x, y)) == x,
        cell_y(n, d, line_of(n, d, x, y), pos_of(n, d, x, y)) == y,
{
}

} // verus!
