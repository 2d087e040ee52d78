//! The board: a grid of four by four cells and its moves.

use crate::chance::Dice;
use crate::grid::{
    allows, changes, col_at, empties_upto, empty_cells, is_grid, is_lost, lane_at, legal_mask,
    lemma_empties, lemma_legal_mask, lemma_line_of, lemma_moved, line_of, moved, placed, pos_at,
    row_at, score, score_upto, spawned, Grid,
};
use crate::line::{lemma_pack, lemma_settled, line_moves, pack, unpack, MoveTable, KEY_SPACE};
use vstd::arithmetic::power2::{lemma2_to64, lemma_pow2_strictly_increases};
use vstd::bits::lemma_u64_shl_is_mul;
use vstd::prelude::*;

verus! {

/// A move, or a set of moves: one bit for each direction.
pub type Move = u8;

/// The flag of the move to the left, direction 0.
pub const MOVE_LEFT: Move = 1;

/// The flag of the move to the right, direction 1.
pub const MOVE_RIGHT: Move = 2;

/// The flag of the move up, direction 2.
pub const MOVE_UP: Move = 4;

/// The flag of the move down, direction 3.
pub const MOVE_DOWN: Move = 8;

/// Whether any move is left.
#[derive(Debug, PartialEq, Eq, Structural, Clone, Copy)]
pub enum GameState {
    /// Some move is legal.
    OnGoing,
    /// No move is legal.
    Lost,
}

/// A grid of exponents, none above 31.
#[derive(Debug, Clone, Copy)]
pub struct Board {
    squares: [[u32; 4]; 4],
}

/// The grid that an array of rows holds.
pub open spec fn grid_of(squares: [[u32; 4]; 4]) -> Grid {
    Seq::new(4, |r: int| Seq::new(4, |c: int| squares[r][c] as nat))
}

/// The move is a single direction.
pub open spec fn is_move(mv: Move) -> bool {
    mv == MOVE_LEFT || mv == MOVE_RIGHT || mv == MOVE_UP || mv == MOVE_DOWN
}

/// The direction of a move: 0 for left, 1 for right, 2 for up, 3 for down.
pub open spec fn direction_of(mv: Move) -> int {
    if mv == MOVE_LEFT {
        0
    } else if mv == MOVE_RIGHT {
        1
    } else if mv == MOVE_UP {
        2
    } else {
        3
    }
}

/// The mask of the legal moves holds a move exactly when making the move
/// changes the board.
pub proof fn lemma_legal_moves_foretell(g: Grid, mv: Move)
    requires
        is_move(mv),
    ensures
        legal_mask(g) & mv != 0 <==> changes(g, direction_of(mv)),
{
    lemma_legal_mask(g);
    assert(allows(legal_mask(g), direction_of(mv)) <==> changes(g, direction_of(mv)));
}

/// The key of the first `n` cells of a line.
spec fn key_upto(line: Seq<nat>, n: nat) -> nat
    decreases n,
{
    if n == 0 {
        0
    } else {
        key_upto(line, (n - 1) as nat) * 32 + line[n - 1]
    }
}

/// Row and column of the cell at place `pos` of lane `lane`.
fn cell_at(d: usize, lane: usize, pos: usize) -> (at: (usize, usize))
    requires
        d < 4,
        lane < 4,
        pos < 4,
    ensures
        at.0 == row_at(d as int, lane as int, pos as int),
        at.1 == col_at(d as int, lane as int, pos as int),
        at.0 < 4,
        at.1 < 4,
{
    if d == 0 {
        (lane, pos)
    } else if d == 1 {
        (lane, 3 - pos)
    } else if d == 2 {
        (pos, lane)
    } else {
        (3 - pos, lane)
    }
}

impl View for Board {
    type V = Grid;

    closed spec fn view(&self) -> Grid {
        grid_of(self.squares)
    }
}

impl Board {
    #[verifier::type_invariant]
    spec fn cells_fit(&self) -> bool {
        forall|r: int, c: int| 0 <= r < 4 && 0 <= c < 4 ==> #[trigger] self.squares[r][c] <= 31
    }

    /// The board that holds `squares`.
    pub fn new(squares: [[u32; 4]; 4]) -> (board: Board)
        requires
            forall|r: int, c: int| 0 <= r < 4 && 0 <= c < 4 ==> #[trigger] squares[r][c] <= 31,
        ensures
            board@ == grid_of(squares),
            is_grid(board@),
    {
        Board { squares }
    }

    /// The rows of the board.
    pub fn squares(&self) -> (squares: [[u32; 4]; 4])
        ensures
            grid_of(squares) == self@,
            is_grid(self@),
    {
        proof {
            use_type_invariant(self);
        }
        self.squares
    }

    /// The key of a lane: its cells from the edge that the tiles move
    /// toward, the first in the highest field.
    fn lane_key(&self, d: usize, lane: usize) -> (key: u32)
        requires
            d < 4,
            lane < 4,
        ensures
            key == pack(line_of(self@, d as int, lane as int)),
            key < KEY_SPACE,
    {
        proof {
            use_type_invariant(self);
        }
        let ghost line = line_of(self@, d as int, lane as int);
        let mut key: u32 = 0;
        let mut pos: usize = 0;
        while pos < 4
            invariant
                pos <= 4,
                d < 4,
                lane < 4,
                self.cells_fit(),
                line == line_of(self@, d as int, lane as int),
                key == key_upto(line, pos as nat),
                pos == 0 ==> key == 0,
                pos == 1 ==> key < 32,
                pos == 2 ==> key < 1024,
                pos == 3 ==> key < 32768,
                pos == 4 ==> key < 0x10_0000,
            decreases 4 - pos,
        {
            let at: (usize, usize) = cell_at(d, lane, pos);
            assert(line[pos as int] == self.squares[at.0 as int][at.1 as int]);
            key = key * 32 + self.squares[at.0][at.1];
            pos = pos + 1;
        }
        proof {
            reveal_with_fuel(key_upto, 5);
        }
        key
    }

    /// Writes the cells that `key` holds to a lane.
    fn store_lane(&mut self, d: usize, lane: usize, key: u32)
        requires
            d < 4,
            lane < 4,
        ensures
            forall|r: int, c: int|
                0 <= r < 4 && 0 <= c < 4 ==> #[trigger] final(self)@[r][c] == (if lane_at(
                    d as int,
                    r,
                    c,
                ) == lane {
                    unpack(key as nat)[pos_at(d as int, r, c)]
                } else {
                    old(self)@[r][c]
                }),
    {
        proof {
            use_type_invariant(&*self);
        }
        let mut rest: u32 = key;
        let mut pos: usize = 4;
        while pos > 0
            invariant
                pos <= 4,
                self.cells_fit(),
                d < 4,
                lane < 4,
                pos == 4 ==> rest == key,
                pos == 3 ==> rest == key / 32,
                pos == 2 ==> rest == key / 1024,
                pos == 1 ==> rest == key / 32768,
                forall|r: int, c: int|
                    0 <= r < 4 && 0 <= c < 4 ==> #[trigger] self.squares[r][c] as nat == (
                    if lane_at(d as int, r, c) == lane && pos_at(d as int, r, c) >= pos {
                        unpack(key as nat)[pos_at(d as int, r, c)]
                    } else {
                        old(self)@[r][c]
                    }),
            decreases pos,
        {
            pos = pos - 1;
            let at: (usize, usize) = cell_at(d, lane, pos);
            assert(key / 32 / 32 == key / 1024 && key / 1024 / 32 == key / 32768) by (bit_vector);
            self.squares[at.0][at.1] = rest % 32;
            rest = rest / 32;
        }
    }

    /// Moves the tiles to the left. Returns whether the board changed.
    pub fn move_left(&mut self, table: &MoveTable) -> (legal: bool)
        ensures
            final(self)@ == moved(old(self)@, 0),
            legal == changes(old(self)@, 0),
            is_grid(final(self)@),
    {
        self.shift(table, 0)
    }

    /// Moves the tiles to the right. Returns whether the board changed.
    pub fn move_right(&mut self, table: &MoveTable) -> (legal: bool)
        ensures
            final(self)@ == moved(old(self)@, 1),
            legal == changes(old(self)@, 1),
            is_grid(final(self)@),
    {
        self.shift(table, 1)
    }

    /// Moves the tiles up. Returns whether the board changed.
    pub fn move_up(&mut self, table: &MoveTable) -> (legal: bool)
        ensures
            final(self)@ == moved(old(self)@, 2),
            legal == changes(old(self)@, 2),
            is_grid(final(self)@),
    {
        self.shift(table, 2)
    }

    /// Moves the tiles down. Returns whether the board changed.
    pub fn move_down(&mut self, table: &MoveTable) -> (legal: bool)
        ensures
            final(self)@ == moved(old(self)@, 3),
            legal == changes(old(self)@, 3),
            is_grid(final(self)@),
    {
        self.shift(table, 3)
    }

    /// Makes the move `mv`, a single direction. Returns whether the board
    /// changed.
    pub fn apply_move(&mut self, mv: Move, table: &MoveTable) -> (legal: bool)
        requires
            is_move(mv),
        ensures
            final(self)@ == moved(old(self)@, direction_of(mv)),
            legal == changes(old(self)@, direction_of(mv)),
            is_grid(final(self)@),
    {
        if mv == MOVE_LEFT {
            self.move_left(table)
        } else if mv == MOVE_RIGHT {
            self.move_right(table)
        } else if mv == MOVE_UP {
            self.move_up(table)
        } else {
            self.move_down(table)
        }
    }

    /// The flags of the moves that would change the board.
    pub fn get_legal_moves(&self, table: &MoveTable) -> (mask: Move)
        ensures
            mask == legal_mask(self@),
            mask < 16,
            forall|d: int| 0 <= d < 4 ==> (allows(mask, d) <==> #[trigger] changes(self@, d)),
            is_grid(self@),
    {
        proof {
            use_type_invariant(self);
        }
        let mut mask: Move = 0;
        let mut copy: Board = *self;
        if copy.move_left(table) {
            mask = mask | MOVE_LEFT;
        }
        let mut copy: Board = *self;
        if copy.move_right(table) {
            assert(mask <= 1 ==> mask | 2 == mask + 2) by (bit_vector);
            mask = mask | MOVE_RIGHT;
        }
        let mut copy: Board = *self;
        if copy.move_up(table) {
            assert(mask <= 3 ==> mask | 4 == mask + 4) by (bit_vector);
            mask = mask | MOVE_UP;
        }
        let mut copy: Board = *self;
        if copy.move_down(table) {
            assert(mask <= 7 ==> mask | 8 == mask + 8) by (bit_vector);
            mask = mask | MOVE_DOWN;
        }
        proof {
            assert(0u8 | 1u8 == 1u8) by (bit_vector);
            lemma_legal_mask(self@);
        }
        mask
    }

    /// Lost if no move would change the board.
    pub fn get_game_state(&self, table: &MoveTable) -> (state: GameState)
        ensures
            state == GameState::Lost <==> legal_mask(self@) == 0,
            state == GameState::Lost <==> is_lost(self@),
    {
        proof {
            lemma_legal_mask(self@);
        }
        if self.get_legal_moves(table) > 0 {
            GameState::OnGoing
        } else {
            GameState::Lost
        }
    }

    /// Puts the exponent `n` on the cell `sq`, counted by rows, if the cell
    /// is empty. Returns whether it was.
    pub fn add_tile(&mut self, sq: u32, n: u32) -> (added: bool)
        requires
            sq < 16,
            n <= 31,
        ensures
            added == (old(self)@[sq as int / 4][sq as int % 4] == 0),
            added ==> final(self)@ == placed(old(self)@, sq as int / 4, sq as int % 4, n as nat),
            !added ==> final(self)@ == old(self)@,
            is_grid(final(self)@),
    {
        proof {
            use_type_invariant(&*self);
        }
        let r: usize = sq as usize / 4;
        let c: usize = sq as usize % 4;
        if self.squares[r][c] == 0 {
            self.squares[r][c] = n;
            proof {
                assert(self@ =~~= placed(old(self)@, r as int, c as int, n as nat));
            }
            true
        } else {
            false
        }
    }

    /// The empty cells, rows first, each as row and column.
    pub fn empties(&self) -> (cells: Vec<(usize, usize)>)
        ensures
            cells@.len() == empty_cells(self@).len(),
            forall|i: int|
                0 <= i < cells@.len() ==> (#[trigger] cells@[i]).0 == empty_cells(self@)[i].0
                    && cells@[i].1 == empty_cells(self@)[i].1,
    {
        let mut cells: Vec<(usize, usize)> = Vec::new();
        let mut y: usize = 0;
        while y < 4
            invariant
                y <= 4,
                cells@.len() == empties_upto(self@, (4 * y) as nat).len(),
                forall|i: int|
                    0 <= i < cells@.len() ==> (#[trigger] cells@[i]).0 == empties_upto(
                        self@,
                        (4 * y) as nat,
                    )[i].0 && cells@[i].1 == empties_upto(self@, (4 * y) as nat)[i].1,
            decreases 4 - y,
        {
            let mut x: usize = 0;
            while x < 4
                invariant
                    y < 4,
                    x <= 4,
                    cells@.len() == empties_upto(self@, (4 * y + x) as nat).len(),
                    forall|i: int|
                        0 <= i < cells@.len() ==> (#[trigger] cells@[i]).0 == empties_upto(
                            self@,
                            (4 * y + x) as nat,
                        )[i].0 && cells@[i].1 == empties_upto(self@, (4 * y + x) as nat)[i].1,
                decreases 4 - x,
            {
                assert((4 * y + x) as int / 4 == y && (4 * y + x) as int % 4 == x);
                if self.squares[y][x] == 0 {
                    cells.push((y, x));
                }
                x = x + 1;
            }
            y = y + 1;
        }
        cells
    }

    /// Puts a new tile on the `pick`-th empty cell, rows first: exponent 1
    /// if `draw` is below 9, exponent 2 otherwise.
    pub fn spawn_tile(&mut self, pick: usize, draw: usize)
        requires
            pick < empty_cells(old(self)@).len(),
        ensures
            final(self)@ == spawned(old(self)@, pick as int, draw as int),
            is_grid(final(self)@),
    {
        proof {
            use_type_invariant(&*self);
            lemma_empties(self@, 16);
        }
        let cells: Vec<(usize, usize)> = self.empties();
        let cell: (usize, usize) = cells[pick];
        let tile: u32 = if draw < 9 {
            1
        } else {
            2
        };
        self.squares[cell.0][cell.1] = tile;
        proof {
            assert(self@ =~~= spawned(old(self)@, pick as int, draw as int));
        }
    }

    /// Puts a new tile on an empty cell picked at random: exponent 1 in nine
    /// cases of ten, exponent 2 in the tenth. The board must have an empty
    /// cell.
    pub fn add_random_tile(&mut self, dice: &mut Dice)
        requires
            empty_cells(old(self)@).len() > 0,
        ensures
            exists|pick: int, draw: int|
                0 <= pick < empty_cells(old(self)@).len() && 0 <= draw < 10 && final(self)@
                    == #[trigger] spawned(old(self)@, pick, draw),
            is_grid(final(self)@),
    {
        let cells: Vec<(usize, usize)> = self.empties();
        let pick: usize = dice.below(cells.len());
        let draw: usize = dice.below(10);
        self.spawn_tile(pick, draw);
    }

    /// The heuristic score: the sum of the tiles and 10 for each empty cell.
    pub fn evaluate(&self) -> (total: u64)
        ensures
            total == score(self@),
    {
        proof {
            use_type_invariant(self);
        }
        let mut empty: u64 = 0;
        let mut sum: u64 = 0;
        let mut y: usize = 0;
        while y < 4
            invariant
                y <= 4,
                self.cells_fit(),
                sum + empty * 10 == score_upto(self@, (4 * y) as nat),
                sum <= 4 * y * 0x8000_0000,
                empty <= 4 * y,
            decreases 4 - y,
        {
            let mut x: usize = 0;
            while x < 4
                invariant
                    y < 4,
                    x <= 4,
                    self.cells_fit(),
                    sum + empty * 10 == score_upto(self@, (4 * y + x) as nat),
                    sum <= (4 * y + x) * 0x8000_0000,
                    empty <= 4 * y + x,
                decreases 4 - x,
            {
                assert((4 * y + x) as int / 4 == y && (4 * y + x) as int % 4 == x);
                let v: u32 = self.squares[y][x];
                if v == 0 {
                    empty = empty + 1;
                } else {
                    proof {
                        lemma2_to64();
                        if v < 31 {
                            lemma_pow2_strictly_increases(v as nat, 31);
                        }
                        lemma_u64_shl_is_mul(1, v as u64);
                    }
                    sum = sum + (1u64 << v);
                }
                x = x + 1;
            }
            y = y + 1;
        }
        sum + empty * 10
    }

    /// Slides every lane of direction `d` and says whether any changed.
    fn shift(&mut self, table: &MoveTable, d: usize) -> (legal: bool)
        requires
            d < 4,
        ensures
            final(self)@ == moved(old(self)@, d as int),
            legal == changes(old(self)@, d as int),
            is_grid(old(self)@),
            is_grid(final(self)@),
    {
        proof {
            use_type_invariant(&*self);
            lemma_moved(self@, d as int);
        }
        let mut legal = false;
        let mut lane: usize = 0;
        while lane < 4
            invariant
                lane <= 4,
                d < 4,
                is_grid(old(self)@),
                forall|r: int, c: int|
                    0 <= r < 4 && 0 <= c < 4 ==> #[trigger] self@[r][c] == (if lane_at(
                        d as int,
                        r,
                        c,
                    ) < lane {
                        moved(old(self)@, d as int)[r][c]
                    } else {
                        old(self)@[r][c]
                    }),
                legal <==> exists|k: int|
                    0 <= k < lane && line_moves(#[trigger] line_of(old(self)@, d as int, k)),
            decreases 4 - lane,
        {
            let ghost line = line_of(old(self)@, d as int, lane as int);
            proof {
                assert(line_of(self@, d as int, lane as int) =~= line);
                lemma_line_of(old(self)@, d as int, lane as int);
                lemma_pack(line);
                lemma_settled(line);
            }
            let key: u32 = self.lane_key(d, lane);
            let out: u32 = table.transform(key);
            if out != key {
                legal = true;
                self.store_lane(d, lane, out);
            }
            lane = lane + 1;
        }
        proof {
            assert(self@ =~~= moved(old(self)@, d as int));
        }
        legal
    }
}

} // verus!
