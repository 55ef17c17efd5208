use vstd::prelude::*;

verus! {

/// Value held by a cell that has no tile.
pub const EMPTY: usize = 99;

/// Highest rank a tile may reach; two tiles of this rank stay apart. A merge
/// of two rank-`r` tiles scores `2^(r + 2)`, so with a `u64` score rank 61 is
/// the highest that can still merge, into a tile of rank 62.
pub const TOP_RANK: usize = 62;

/// A cell value that is either `EMPTY` or a rank a tile may hold.
pub open spec fn is_cell_value(v: usize) -> bool {
    v == EMPTY || v <= TOP_RANK
}

/// Two tiles combine when they hold the same rank below the top one.
pub open spec fn can_combine(a: usize, b: usize) -> bool {
    a == b && a < TOP_RANK
}

/// The greedy merge of a line, read from the edge the tiles slide toward.
/// Returns the ranks placed so far, slot by slot, and whether the last placed
/// tile may still absorb an equal one.
pub open spec fn merge_state(s: Seq<usize>) -> (Seq<usize>, bool)
    decreases s.len(),
{
    if s.len() == 0 {
        (Seq::empty(), false)
    } else {
        let (out, open) = merge_state(s.drop_last());
        let v = s.last();
        if v == EMPTY {
            (out, open)
        } else if open && can_combine(out.last(), v) {
            (out.drop_last().push((v + 1) as usize), false)
        } else {
            (out.push(v), true)
        }
    }
}

/// Number of merges performed by the greedy merge of a line.
pub open spec fn merge_count(s: Seq<usize>) -> nat
    decreases s.len(),
{
    if s.len() == 0 {
        0
    } else {
        let (out, open) = merge_state(s.drop_last());
        let v = s.last();
        if v != EMPTY && open && can_combine(out.last(), v) {
            merge_count(s.drop_last()) + 1
        } else {
            merge_count(s.drop_last())
        }
    }
}

/// Number of tiles (non-empty cells) in a line.
pub open spec fn tile_count(s: Seq<usize>) -> nat
    decreases s.len(),
{
    if s.len() == 0 {
        0
    } else if s.last() == EMPTY {
        tile_count(s.drop_last())
    } else {
        tile_count(s.drop_last()) + 1
    }
}

/// A line after sliding toward its first slot: the merged tiles, then empty cells.
pub open spec fn slid_line(s: Seq<usize>) -> Seq<usize> {
    let out = merge_state(s).0;
    Seq::new(s.len(), |k: int| if k < out.len() { out[k] } else { EMPTY })
}

/// Facts about the greedy merge: it never produces more slots than cells read,
/// an open state has a last slot, every slot is a rank, and each merge removes
/// exactly one tile.
pub proof fn lemma_merge_state(s: Seq<usize>)
    requires
        forall|k: int| 0 <= k < s.len() ==> is_cell_value(#[trigger] s[k]),
    ensures
        merge_state(s).0.len() <= s.len(),
        merge_state(s).1 ==> merge_state(s).0.len() > 0,
        forall|k: int|
            0 <= k < merge_state(s).0.len() ==> #[trigger] merge_state(s).0[k] <= TOP_RANK,
        merge_state(s).0.len() + merge_count(s) == tile_count(s),
    decreases s.len(),
{
    if s.len() > 0 {
        let p = s.drop_last();
        assert forall|k: int| 0 <= k < p.len() implies is_cell_value(#[trigger] p[k]) by {
            assert(p[k] == s[k]);
        }
        lemma_merge_state(p);
        assert(is_cell_value(s[s.len() - 1]));
    }
}

/// The last tile of `s` merges into the last slot placed before it.
pub open spec fn last_merges(s: Seq<usize>) -> bool {
    &&& s.len() > 0
    &&& s.last() != EMPTY
    &&& merge_state(s.drop_last()).1
    &&& can_combine(merge_state(s.drop_last()).0.last(), s.last())
}

/// The slot the last tile of `s` goes to.
pub open spec fn last_dest(s: Seq<usize>) -> int {
    let out = merge_state(s.drop_last()).0;
    if last_merges(s) { out.len() - 1 } else { out.len() as int }
}

/// The last tile of `s` leaves its cell: it merges, or its slot lies nearer the edge.
pub open spec fn last_leaves(s: Seq<usize>) -> bool {
    &&& s.len() > 0
    &&& s.last() != EMPTY
    &&& last_dest(s) != s.len() - 1
}

/// The tiles that move when line `s` slides, in scan order: source position,
/// destination position, rank carried, and whether it merges on arrival.
pub open spec fn line_moves(s: Seq<usize>) -> Seq<(int, int, usize, bool)>
    decreases s.len(),
{
    if s.len() == 0 {
        Seq::empty()
    } else if last_leaves(s) {
        line_moves(s.drop_last()).push((s.len() - 1, last_dest(s), s.last(), last_merges(s)))
    } else {
        line_moves(s.drop_last())
    }
}

/// Line `s` with every tile that moves taken off its cell.
pub open spec fn line_rest(s: Seq<usize>) -> Seq<usize>
    decreases s.len(),
{
    if s.len() == 0 {
        Seq::empty()
    } else {
        line_rest(s.drop_last()).push(if last_leaves(s) { EMPTY } else { s.last() })
    }
}

/// Every tile of line `s` is blocked: the cell before it, toward the edge,
/// holds a tile of another rank (the first cell is blocked by the edge).
pub open spec fn line_blocked(s: Seq<usize>) -> bool {
    forall|k: int| 0 < k < s.len() && #[trigger] s[k] != EMPTY ==> s[k - 1] != EMPTY && s[k - 1] != s[k]
}

/// A line whose tiles are all blocked sends no tile, and its merge keeps its
/// tiles where they are.
pub proof fn lemma_blocked_line(s: Seq<usize>)
    requires
        line_blocked(s),
    ensures
        line_moves(s).len() == 0,
        forall|k: int| 0 <= k < merge_state(s).0.len() ==> #[trigger] merge_state(s).0[k] == s[k],
        merge_state(s).0.len() <= s.len(),
        merge_state(s).0.len() < s.len() ==> s[merge_state(s).0.len() as int] == EMPTY,
        forall|k: int| merge_state(s).0.len() <= k < s.len() ==> #[trigger] s[k] == EMPTY,
        merge_state(s).1 <==> merge_state(s).0.len() > 0,
    decreases s.len(),
{
    if s.len() > 0 {
        let p = s.drop_last();
        assert forall|k: int| 0 < k < p.len() && #[trigger] p[k] != EMPTY implies p[k - 1] != EMPTY && p[k - 1] != p[k] by {
            assert(p[k] == s[k] && p[k - 1] == s[k - 1]);
        }
        lemma_blocked_line(p);
        let out = merge_state(p).0;
        let k = s.len() - 1;
        if s.last() != EMPTY {
            if k > 0 {
                assert(s[k - 1] != EMPTY);
                assert(p[k - 1] == s[k - 1]);
                assert(out.len() == k);
                assert(out.last() == out[k - 1]);
            }
        }
        assert forall|j: int| 0 <= j < p.len() implies p[j] == s[j] by {}
    }
}

} // verus!
