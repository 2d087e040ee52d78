//! The mathematical model of the grid and of its four moves.
//!
//! A direction is a number: 0 is left, 1 right, 2 up and 3 down. A move in a
//! direction slides each of the four lines that run along it. The lines of a
//! direction are its lanes; a cell of a lane is found by its place in the
//! lane, counted from the edge that the tiles move toward.

use crate::line::{at_rest, is_line, lemma_line_moves, lemma_settled, line_moves, settled};
use vstd::arithmetic::power2::{lemma2_to64, lemma_pow2_strictly_increases, pow2};
use vstd::prelude::*;

verus! {

/// Four rows of four cells, top row first. A cell holds an exponent, 0 for
/// an empty cell.
pub type Grid = Seq<Seq<nat>>;

/// Four rows of four cells, no cell above 31.
pub open spec fn is_grid(g: Grid) -> bool {
    &&& g.len() == 4
    &&& forall|r: int| 0 <= r < 4 ==> (#[trigger] g[r]).len() == 4
    &&& forall|r: int, c: int| 0 <= r < 4 && 0 <= c < 4 ==> #[trigger] g[r][c] <= 31
}

/// The row of the cell at place `pos` of lane `lane`.
pub open spec fn row_at(d: int, lane: int, pos: int) -> int {
    if d < 2 {
        lane
    } else if d == 2 {
        pos
    } else {
        3 - pos
    }
}

/// The column of the cell at place `pos` of lane `lane`.
pub open spec fn col_at(d: int, lane: int, pos: int) -> int {
    if d == 0 {
        pos
    } else if d == 1 {
        3 - pos
    } else {
        lane
    }
}

/// The lane of direction `d` that the cell in row `r` and column `c` lies on.
pub open spec fn lane_at(d: int, r: int, c: int) -> int {
    if d < 2 {
        r
    } else {
        c
    }
}

/// The place of the cell in row `r` and column `c` on its lane.
pub open spec fn pos_at(d: int, r: int, c: int) -> int {
    if d == 0 {
        c
    } else if d == 1 {
        3 - c
    } else if d == 2 {
        r
    } else {
        3 - r
    }
}

/// The cells of a lane, from the edge that the tiles move toward.
pub open spec fn line_of(g: Grid, d: int, lane: int) -> Seq<nat> {
    Seq::new(4, |pos: int| g[row_at(d, lane, pos)][col_at(d, lane, pos)])
}

/// The grid after a move in direction `d`: every lane is settled.
pub open spec fn moved(g: Grid, d: int) -> Grid {
    Seq::new(
        4,
        |r: int|
            Seq::new(4, |c: int| settled(line_of(g, d, lane_at(d, r, c)))[pos_at(d, r, c)]),
    )
}

/// The move in direction `d` is legal: it changes some lane.
pub open spec fn changes(g: Grid, d: int) -> bool {
    exists|lane: int| 0 <= lane < 4 && line_moves(#[trigger] line_of(g, d, lane))
}

/// The flag of direction `d`: a single bit.
pub open spec fn flag(d: int) -> u8 {
    if d == 0 {
        1
    } else if d == 1 {
        2
    } else if d == 2 {
        4
    } else {
        8
    }
}

/// The mask holds the flag of direction `d`.
pub open spec fn allows(mask: u8, d: int) -> bool {
    mask & flag(d) != 0
}

/// The flags of the legal moves, in one mask.
pub open spec fn legal_mask(g: Grid) -> u8 {
    ((if changes(g, 0) {
        1int
    } else {
        0int
    }) + (if changes(g, 1) {
        2int
    } else {
        0int
    }) + (if changes(g, 2) {
        4int
    } else {
        0int
    }) + (if changes(g, 3) {
        8int
    } else {
        0int
    })) as u8
}

/// No move is legal.
pub open spec fn is_lost(g: Grid) -> bool {
    forall|d: int| 0 <= d < 4 ==> !changes(g, d)
}

/// The grid with `tile` in row `r` and column `c`.
pub open spec fn placed(g: Grid, r: int, c: int, tile: nat) -> Grid {
    g.update(r, g[r].update(c, tile))
}

/// The empty cells among the first `n` cells, rows first, as pairs of row
/// and column.
pub open spec fn empties_upto(g: Grid, n: nat) -> Seq<(int, int)>
    decreases n,
{
    if n == 0 {
        Seq::empty()
    } else {
        let k = (n - 1) as int;
        if g[k / 4][k % 4] == 0 {
            empties_upto(g, (n - 1) as nat).push((k / 4, k % 4))
        } else {
            empties_upto(g, (n - 1) as nat)
        }
    }
}

/// The empty cells of the grid, rows first.
pub open spec fn empty_cells(g: Grid) -> Seq<(int, int)> {
    empties_upto(g, 16)
}

/// What a cell counts for: its tile, or 10 if it is empty.
pub open spec fn cell_score(e: nat) -> nat {
    if e == 0 {
        10
    } else {
        pow2(e)
    }
}

/// The score of the first `n` cells, rows first.
pub open spec fn score_upto(g: Grid, n: nat) -> nat
    decreases n,
{
    if n == 0 {
        0
    } else {
        let k = (n - 1) as int;
        score_upto(g, (n - 1) as nat) + cell_score(g[k / 4][k % 4])
    }
}

/// The heuristic score of a grid: the sum of its tiles and 10 for each
/// empty cell.
pub open spec fn score(g: Grid) -> nat {
    score_upto(g, 16)
}

/// The grid after a new tile came up on the `pick`-th empty cell: a tile of
/// exponent 1 if `draw` is below 9, of exponent 2 otherwise.
pub open spec fn spawned(g: Grid, pick: int, draw: int) -> Grid {
    let cell = empty_cells(g)[pick];
    placed(
        g,
        cell.0,
        cell.1,
        if draw < 9 {
            1
        } else {
            2
        },
    )
}

/// One ply of a rollout: a legal move, and then a new tile on an empty cell.
pub open spec fn is_ply(before: Grid, after: Grid) -> bool {
    exists|d: int, pick: int, draw: int|
        {
            &&& 0 <= d < 4
            &&& changes(before, d)
            &&& 0 <= pick < empty_cells(moved(before, d)).len()
            &&& 0 <= draw < 10
            &&& after == #[trigger] spawned(moved(before, d), pick, draw)
        }
}

/// A rollout: at most 30 plies, one after the other, that end on a grid
/// without a legal move or with the thirtieth ply.
pub open spec fn is_playout(trace: Seq<Grid>) -> bool {
    &&& 1 <= trace.len() <= 31
    &&& forall|i: int| 0 <= i < trace.len() - 1 ==> is_ply(#[trigger] trace[i], trace[i + 1])
    &&& trace.len() == 31 || is_lost(trace.last())
}

/// A lane of a grid is a line.
pub proof fn lemma_line_of(g: Grid, d: int, lane: int)
    requires
        is_grid(g),
        0 <= d < 4,
        0 <= lane < 4,
    ensures
        is_line(line_of(g, d, lane)),
{
}

/// After a move every lane holds what its line settled to, and the grid is
/// a grid again.
pub proof fn lemma_moved(g: Grid, d: int)
    requires
        is_grid(g),
        0 <= d < 4,
    ensures
        is_grid(moved(g, d)),
        forall|lane: int|
            0 <= lane < 4 ==> #[trigger] line_of(moved(g, d), d, lane) == settled(
                line_of(g, d, lane),
            ),
{
    assert forall|lane: int| 0 <= lane < 4 implies is_line(
        #[trigger] settled(line_of(g, d, lane)),
    ) by {
        lemma_line_of(g, d, lane);
        lemma_settled(line_of(g, d, lane));
    }
    assert forall|lane: int| 0 <= lane < 4 implies #[trigger] line_of(moved(g, d), d, lane)
        == settled(line_of(g, d, lane)) by {
        assert(line_of(moved(g, d), d, lane) =~= settled(line_of(g, d, lane)));
    }
    assert forall|r: int, c: int| 0 <= r < 4 && 0 <= c < 4 implies #[trigger] moved(g, d)[r][c]
        <= 31 by {
        let line = settled(line_of(g, d, lane_at(d, r, c)));
        assert(is_line(line));
        assert(moved(g, d)[r][c] == line[pos_at(d, r, c)]);
    }
}

/// A move is legal exactly when some lane is not at rest, and exactly when
/// it changes the grid.
pub proof fn lemma_changes(g: Grid, d: int)
    requires
        is_grid(g),
        0 <= d < 4,
    ensures
        changes(g, d) <==> exists|lane: int|
            0 <= lane < 4 && !at_rest(#[trigger] line_of(g, d, lane)),
        changes(g, d) <==> moved(g, d) != g,
{
    lemma_moved(g, d);
    assert forall|lane: int| 0 <= lane < 4 implies (line_moves(#[trigger] line_of(g, d, lane))
        <==> !at_rest(line_of(g, d, lane))) && (line_moves(line_of(g, d, lane)) <==> line_of(
        moved(g, d),
        d,
        lane,
    ) != line_of(g, d, lane)) by {
        lemma_line_of(g, d, lane);
        lemma_line_moves(line_of(g, d, lane));
        lemma_settled(line_of(g, d, lane));
    }
    if !changes(g, d) {
        assert forall|r: int, c: int| 0 <= r < 4 && 0 <= c < 4 implies #[trigger] moved(
            g,
            d,
        )[r][c] == g[r][c] by {
            let lane = lane_at(d, r, c);
            assert(!line_moves(line_of(g, d, lane)));
            assert(line_of(g, d, lane)[pos_at(d, r, c)] == g[r][c]);
        }
        assert(moved(g, d) =~~= g);
    }
}

/// Where a move leaves every lane at rest, the same move made again is not
/// legal and leaves the grid as it is.
pub proof fn lemma_move_again(g: Grid, d: int)
    requires
        is_grid(g),
        0 <= d < 4,
        forall|lane: int| 0 <= lane < 4 ==> at_rest(#[trigger] line_of(moved(g, d), d, lane)),
    ensures
        !changes(moved(g, d), d),
        moved(moved(g, d), d) == moved(g, d),
{
    lemma_moved(g, d);
    lemma_changes(moved(g, d), d);
}

/// An empty cell among the first `n` cells shows among the empty cells, and
/// all of these are empty cells of the grid.
pub proof fn lemma_empties(g: Grid, n: nat)
    requires
        n <= 16,
    ensures
        forall|i: int|
            0 <= i < empties_upto(g, n).len() ==> {
                let cell = #[trigger] empties_upto(g, n)[i];
                0 <= cell.0 < 4 && 0 <= cell.1 < 4 && g[cell.0][cell.1] == 0
            },
        forall|r: int, c: int|
            0 <= r < 4 && 0 <= c < 4 && 4 * r + c < n && #[trigger] g[r][c] == 0 ==> empties_upto(
                g,
                n,
            ).len() > 0,
        empties_upto(g, n).len() <= n,
    decreases n,
{
    if n > 0 {
        lemma_empties(g, (n - 1) as nat);
        let k = (n - 1) as int;
        assert forall|r: int, c: int|
            0 <= r < 4 && 0 <= c < 4 && 4 * r + c < n && #[trigger] g[r][c] == 0 implies
            empties_upto(g, n).len() > 0 by {
            if 4 * r + c == k {
                assert(k / 4 == r && k % 4 == c);
            }
        }
    }
}

/// The score of the first `n` cells of a grid is at most `n` tiles of
/// exponent 31.
pub proof fn lemma_score_is_bounded(g: Grid, n: nat)
    requires
        is_grid(g),
        n <= 16,
    ensures
        score_upto(g, n) <= n * 0x8000_0000,
    decreases n,
{
    if n > 0 {
        lemma_score_is_bounded(g, (n - 1) as nat);
        let k = (n - 1) as int;
        let e = g[k / 4][k % 4];
        lemma2_to64();
        if 0 < e < 31 {
            lemma_pow2_strictly_increases(e, 31);
        }
    }
}

/// A legal move leaves an empty cell.
pub proof fn lemma_legal_move_leaves_gap(g: Grid, d: int)
    requires
        is_grid(g),
        0 <= d < 4,
        changes(g, d),
    ensures
        empty_cells(moved(g, d)).len() > 0,
{
    let lane = choose|lane: int| 0 <= lane < 4 && line_moves(#[trigger] line_of(g, d, lane));
    lemma_line_of(g, d, lane);
    lemma_settled(line_of(g, d, lane));
    let r = row_at(d, lane, 3);
    let c = col_at(d, lane, 3);
    assert(moved(g, d)[r][c] == settled(line_of(g, d, lane))[3]);
    lemma_empties(moved(g, d), 16);
}

/// The mask of the legal moves holds the flag of a direction exactly when
/// the move in that direction is legal, and it is empty exactly when no
/// move is.
pub proof fn lemma_legal_mask(g: Grid)
    ensures
        legal_mask(g) < 16,
        forall|d: int| 0 <= d < 4 ==> (allows(legal_mask(g), d) <==> #[trigger] changes(g, d)),
        legal_mask(g) == 0 <==> is_lost(g),
{
    let mask = legal_mask(g);
    assert(mask < 16 ==> (mask & 1 != 0 <==> mask % 2 == 1) && (mask & 2 != 0 <==> (mask / 2) % 2
        == 1) && (mask & 4 != 0 <==> (mask / 4) % 2 == 1) && (mask & 8 != 0 <==> mask / 8 == 1))
        by (bit_vector);
    if is_lost(g) {
        assert(!changes(g, 0) && !changes(g, 1) && !changes(g, 2) && !changes(g, 3));
    }
}

} // verus!
