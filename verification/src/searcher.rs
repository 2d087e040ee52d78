//! The search: a tree of positions grown by rounds of selection, expansion,
//! rollout and backpropagation.

use crate::board::{direction_of, is_move, Board, GameState, Move};
use crate::chance::Dice;
use crate::clock::{budget_spent, is_raised};
use crate::grid::{
    allows, changes, empty_cells, is_grid, is_lost, is_playout, is_ply, legal_mask,
    lemma_legal_mask, lemma_legal_move_leaves_gap, lemma_score_is_bounded, moved, score, spawned,
    Grid,
};
use crate::line::MoveTable;
use crate::node::{
    attach, child_rewards, credited, has_grown, has_grown_from, has_new_child, has_no_lost_node,
    is_best_child,
    is_childless, is_expansion, is_fresh, is_grown, lemma_expansion, lemma_expansion_grows,
    lemma_growth_goes_on, lemma_growth_keeps_child, lemma_new_child_of_root,
    lemma_root_without_child, node_ok, on_path, tree_ok, Node, ABSENT, MAX_REWARD,
};
use crate::selection::{
    directions, directions_of, flag_of, has_direction, is_descent, is_first_best, is_rank,
    lemma_descent_from_childless_root, lemma_descent_goes_on, lemma_directions,
    lemma_lone_root_is_childless, lemma_selected_is_to_explore, outranks, scorer_ok, selects, Rank,
};
use std::sync::atomic::AtomicBool;
use std::time::Instant;
use vstd::prelude::*;

verus! {

/// A search from one position.
///
/// The cursor is the board that the search moves along its way down the
/// tree. Each step down leaves the node on the path and the board before
/// the step among the snapshots, so that the cursor can go back to the
/// root.
pub struct Searcher<'a, F: Fn(u128, u32, u32) -> u64> {
    board: Board,
    table: &'a MoveTable,
    score: F,
    dice: Dice,
    start_time: Instant,
    time_limit: u64,
    stopped: &'a AtomicBool,
    tree: Vec<Node>,
    selection_line: Vec<usize>,
    history: Vec<Board>,
    iterations: u32,
}

/// The path names nodes of the tree, each behind the one before.
pub open spec fn path_ok(path: Seq<usize>, len: int) -> bool {
    &&& forall|i: int| 0 <= i < path.len() ==> #[trigger] path[i] < len
    &&& forall|i: int, j: int| 0 <= i < j < path.len() ==> path[i] < path[j]
}

impl<'a, F: Fn(u128, u32, u32) -> u64> Searcher<'a, F> {
    /// The grid of the cursor.
    pub closed spec fn cursor(&self) -> Grid {
        self.board@
    }

    /// The tree: the root first, every child behind its parent.
    pub closed spec fn nodes(&self) -> Seq<Node> {
        self.tree@
    }

    /// The nodes at which this round stepped down, the root first.
    pub closed spec fn path(&self) -> Seq<usize> {
        self.selection_line@
    }

    /// The grids of the cursor before each move of this round.
    pub closed spec fn snapshots(&self) -> Seq<Grid> {
        Seq::new(self.history@.len(), |i: int| self.history@[i]@)
    }

    /// The rounds that were played.
    pub closed spec fn rounds(&self) -> nat {
        self.iterations as nat
    }

    /// The scoring function of selection.
    pub closed spec fn scorer(&self) -> F {
        self.score
    }

    /// The milliseconds that the search may take.
    pub closed spec fn limit(&self) -> u64 {
        self.time_limit
    }

    /// The flag that stops the search once it is raised.
    pub closed spec fn flag(&self) -> &'a AtomicBool {
        self.stopped
    }

    /// This search has the scoring function, the time limit and the stop
    /// flag of `before`.
    pub open spec fn same_terms(&self, before: &Self) -> bool {
        &&& self.scorer() == before.scorer()
        &&& self.limit() == before.limit()
        &&& self.flag() == before.flag()
    }

    /// The grid of the root: the first snapshot, or the cursor if it has not
    /// moved.
    pub open spec fn root(&self) -> Grid {
        if self.snapshots().len() > 0 {
            self.snapshots()[0]
        } else {
            self.cursor()
        }
    }

    /// The search is sound: so is its tree, the root node has the legal
    /// moves of the root grid, and no node has more visits than rounds were
    /// played.
    pub open spec fn wf(&self) -> bool {
        &&& tree_ok(self.nodes())
        &&& scorer_ok(self.scorer())
        &&& path_ok(self.path(), self.nodes().len() as int)
        &&& self.nodes()[0].moves == legal_mask(self.root())
        &&& forall|i: int|
            0 <= i < self.nodes().len() ==> (#[trigger] self.nodes()[i]).visits <= self.rounds()
        &&& is_grid(self.cursor())
        &&& forall|i: int|
            0 <= i < self.snapshots().len() ==> is_grid(#[trigger] self.snapshots()[i])
    }

    /// Between two rounds: the cursor is at the root.
    pub open spec fn at_rest(&self) -> bool {
        self.path().len() == 0 && self.snapshots().len() == 0
    }

    /// A search from `board` that may take `move_time` milliseconds and
    /// ends early once `stopped` is raised. It makes its moves with `table`,
    /// rates the children with `score` and draws with `dice`. The tree holds
    /// the root alone.
    pub fn new(
        board: Board,
        move_time: u64,
        stopped: &'a AtomicBool,
        table: &'a MoveTable,
        score: F,
        dice: Dice,
    ) -> (searcher: Self)
        requires
            scorer_ok(score),
        ensures
            searcher.wf(),
            searcher.at_rest(),
            searcher.cursor() == board@,
            searcher.nodes().len() == 1,
            is_fresh(searcher.nodes()[0], board@),
            searcher.rounds() == 0,
            searcher.scorer() == score,
            searcher.limit() == move_time,
            searcher.flag() == stopped,
    {
        let root = Node::new(&board, table);
        proof {
            lemma_legal_mask(board@);
        }
        Searcher {
            board,
            table,
            score,
            dice,
            start_time: Instant::now(),
            time_limit: move_time,
            stopped,
            tree: vec![root],
            selection_line: Vec::new(),
            history: Vec::new(),
            iterations: 0,
        }
    }

    /// The milliseconds since the search was made.
    fn time_spent(&self) -> u128 {
        self.start_time.elapsed().as_millis()
    }

    /// The rounds that were played.
    pub fn iterations(&self) -> (rounds: u32)
        ensures
            rounds == self.rounds(),
    {
        self.iterations
    }

    /// The board of the cursor.
    pub fn board(&self) -> (board: Board)
        ensures
            board@ == self.cursor(),
    {
        self.board
    }

    /// The tree.
    pub fn tree(&self) -> (tree: &Vec<Node>)
        ensures
            tree@ == self.nodes(),
    {
        &self.tree
    }

    /// The nodes at which this round stepped down.
    pub fn selection_line(&self) -> (path: &Vec<usize>)
        ensures
            path@ == self.path(),
    {
        &self.selection_line
    }

    /// How many snapshots this round has left.
    pub fn history_len(&self) -> (len: usize)
        ensures
            len == self.snapshots().len(),
    {
        self.history.len()
    }

    /// The rank of direction `move_shift` at a node.
    fn ucb1(&self, node_idx: usize, move_shift: usize) -> (rank: Rank)
        requires
            self.wf(),
            node_idx < self.nodes().len(),
            move_shift < 4,
        ensures
            is_rank(self.scorer(), self.nodes(), node_idx as int, move_shift as int, rank),
    {
        let node = &self.tree[node_idx];
        let child_idx: usize = node.children_indices[move_shift];
        if child_idx == ABSENT {
            return Rank::Unvisited;
        }
        let child = &self.tree[child_idx];
        if node.visits == 0 || child.visits == 0 {
            return Rank::Unvisited;
        }
        Rank::Rated((self.score)(child.rewards, child.visits, node.visits))
    }

    /// The direction that selection takes at a node that has a legal move.
    fn best_direction(&self, node_idx: usize) -> (best: usize)
        requires
            self.wf(),
            node_idx < self.nodes().len(),
            self.nodes()[node_idx as int].moves != 0,
        ensures
            best < 4,
            selects(self.scorer(), self.nodes(), node_idx as int, best as int),
    {
        let moves: Move = self.tree[node_idx].moves;
        let mut best: usize = 4;
        let mut best_rank = Rank::Unvisited;
        let ghost mut ranks: Seq<Rank> = Seq::new(4, |e: int| Rank::Unvisited);
        let mut i: usize = 0;
        while i < 4
            invariant
                i <= 4,
                self.wf(),
                node_idx < self.nodes().len(),
                moves == self.nodes()[node_idx as int].moves,
                ranks.len() == 4,
                forall|e: int|
                    0 <= e < i && allows(moves, e) ==> is_rank(
                        self.scorer(),
                        self.nodes(),
                        node_idx as int,
                        e,
                        #[trigger] ranks[e],
                    ),
                best == 4 ==> forall|e: int| 0 <= e < i ==> !allows(moves, e),
                best != 4 ==> best < i && best_rank == ranks[best as int] && allows(
                    moves,
                    best as int,
                ),
                best != 4 ==> forall|e: int|
                    0 <= e < i && allows(moves, e) ==> !outranks(
                        #[trigger] ranks[e],
                        ranks[best as int],
                    ) && (e < best ==> outranks(ranks[best as int], ranks[e])),
            decreases 4 - i,
        {
            if has_direction(moves, i) {
                let rank = self.ucb1(node_idx, i);
                proof {
                    ranks = ranks.update(i as int, rank);
                }
                if best == 4 || rank.beats(best_rank) {
                    best = i;
                    best_rank = rank;
                }
            }
            i = i + 1;
        }
        proof {
            assert(moves != 0 && moves < 16 ==> (moves & 1 != 0 || moves & 2 != 0 || moves & 4 != 0
                || moves & 8 != 0)) by (bit_vector);
            assert(allows(moves, 0) || allows(moves, 1) || allows(moves, 2) || allows(moves, 3));
            assert(is_first_best(moves, ranks, best as int));
        }
        best
    }

    /// Goes down from the root, at each node in the direction of the first
    /// highest rank, until that direction has no child. Returns the node
    /// reached, or nothing if the way led to a node without a legal move.
    pub fn select(&mut self) -> (picked: Option<usize>)
        requires
            old(self).wf(),
            old(self).snapshots().len() == 0,
        ensures
            final(self).wf(),
            final(self).nodes() == old(self).nodes(),
            final(self).rounds() == old(self).rounds(),
            final(self).same_terms(old(self)),
            final(self).root() == old(self).cursor(),
            exists|end: int|
                {
                    &&& #[trigger] is_descent(
                        final(self).scorer(),
                        final(self).nodes(),
                        final(self).path(),
                        final(self).snapshots(),
                        old(self).cursor(),
                        final(self).cursor(),
                        end,
                    )
                    &&& match picked {
                        Some(at) => at == end && final(self).nodes()[end].moves != 0 && exists|
                            d: int,
                        |
                            #[trigger] selects(final(self).scorer(), final(self).nodes(), end, d)
                                && final(self).nodes()[end].children_indices[d] == ABSENT,
                        None => final(self).nodes()[end].moves == 0,
                    }
                },
            old(self).nodes().len() == 1 ==> final(self).path().len() == 0 && final(self).cursor()
                == old(self).cursor() && (if old(self).nodes()[0].moves != 0 {
                picked == Some(0usize)
            } else {
                picked is None
            }),
            is_childless(old(self).nodes(), 0) ==> final(self).path().len() == 0
                && final(self).cursor() == old(self).cursor() && (if old(self).nodes()[0].moves
                != 0 {
                picked == Some(0usize)
            } else {
                picked is None
            }),
            match picked {
                Some(at) => at < old(self).nodes().len() && directions(
                    old(self).nodes()[at as int].moves_to_explore,
                ).len() > 0,
                None => !has_no_lost_node(old(self).nodes()),
            },
    {
        self.selection_line.clear();
        let mut node_idx: usize = 0;
        loop
            invariant
                self.wf(),
                self.nodes() == old(self).nodes(),
                self.rounds() == old(self).rounds(),
                self.same_terms(old(self)),
                self.root() == old(self).cursor(),
                forall|i: int| 0 <= i < self.path().len() ==> #[trigger] self.path()[i] < node_idx,
                node_idx < self.nodes().len(),
                is_descent(
                    self.scorer(),
                    self.nodes(),
                    self.path(),
                    self.snapshots(),
                    old(self).cursor(),
                    self.cursor(),
                    node_idx as int,
                ),
            ensures
                self.nodes()[node_idx as int].moves != 0,
                exists|d: int|
                    #[trigger] selects(self.scorer(), self.nodes(), node_idx as int, d)
                        && self.nodes()[node_idx as int].children_indices[d] == ABSENT,
            decreases self.nodes().len() - node_idx,
        {
            if self.tree[node_idx].state == GameState::Lost {
                proof {
                    if self.nodes().len() == 1 {
                        lemma_lone_root_is_childless(self.nodes());
                    }
                    if is_childless(self.nodes(), 0) {
                        lemma_descent_from_childless_root(
                            self.scorer(),
                            self.nodes(),
                            self.path(),
                            self.snapshots(),
                            old(self).cursor(),
                            self.cursor(),
                            node_idx as int,
                        );
                    }
                    assert(self.nodes()[node_idx as int].moves == 0);
                }
                return None;
            }
            let best: usize = self.best_direction(node_idx);
            let next_idx: usize = self.tree[node_idx].children_indices[best];
            if next_idx == ABSENT {
                break;
            }
            let ghost before = self.cursor();
            let ghost old_path = self.path();
            let ghost old_snapshots = self.snapshots();
            proof {
                lemma_descent_goes_on(
                    self.scorer(),
                    self.nodes(),
                    old_path,
                    old_snapshots,
                    old(self).cursor(),
                    before,
                    node_idx,
                    best as int,
                );
            }
            self.selection_line.push(node_idx);
            self.history.push(self.board);
            self.board.apply_move(flag_of(best), self.table);
            proof {
                assert(self.path() == old_path.push(node_idx));
                assert(self.snapshots() =~= old_snapshots.push(before));
            }
            node_idx = next_idx;
        }
        proof {
            if self.nodes().len() == 1 {
                lemma_lone_root_is_childless(self.nodes());
            }
            if is_childless(self.nodes(), 0) {
                lemma_descent_from_childless_root(
                    self.scorer(),
                    self.nodes(),
                    self.path(),
                    self.snapshots(),
                    old(self).cursor(),
                    self.cursor(),
                    node_idx as int,
                );
            }
            let d = choose|d: int|
                #[trigger] selects(self.scorer(), self.nodes(), node_idx as int, d)
                    && self.nodes()[node_idx as int].children_indices[d] == ABSENT;
            lemma_selected_is_to_explore(self.scorer(), self.nodes(), node_idx as int, d);
        }
        Some(node_idx)
    }

    /// This search is `before` after node `at` was expanded: the `pick`-th
    /// direction that the node had to explore was applied to the cursor,
    /// a tile came up as `cell` and `draw` say if a cell was empty, and the
    /// node of the new cursor stands at the end of the tree as the child in
    /// that direction. The board before the move is the last snapshot.
    pub open spec fn expanded_from(
        &self,
        before: &Self,
        at: int,
        pick: int,
        cell: int,
        draw: int,
    ) -> bool {
        let d = directions(before.nodes()[at].moves_to_explore)[pick];
        let slid = moved(before.cursor(), d);
        &&& self.cursor() == if empty_cells(slid).len() > 0 {
            spawned(slid, cell, draw)
        } else {
            slid
        }
        &&& is_expansion(before.nodes(), self.nodes(), at, d, self.cursor())
        &&& self.snapshots() == before.snapshots().push(before.cursor())
        &&& self.path() == before.path()
        &&& self.rounds() == before.rounds()
        &&& self.same_terms(before)
    }

    /// Expands a node in the `pick`-th direction that it has to explore. The
    /// new tile comes up on the `cell`-th empty cell, with exponent 1 if
    /// `draw` is below 9 and exponent 2 otherwise; no tile comes up on a
    /// full board.
    pub fn expand_with(&mut self, node_idx: usize, pick: usize, cell: usize, draw: usize)
        requires
            old(self).wf(),
            node_idx < old(self).nodes().len(),
            old(self).nodes().len() + 1 < ABSENT,
            pick < directions(old(self).nodes()[node_idx as int].moves_to_explore).len(),
            ({
                let to_explore = old(self).nodes()[node_idx as int].moves_to_explore;
                let d = directions(to_explore)[pick as int];
                let free = empty_cells(moved(old(self).cursor(), d)).len();
                free == 0 || cell < free
            }),
        ensures
            final(self).wf(),
            final(self).expanded_from(
                old(self),
                node_idx as int,
                pick as int,
                cell as int,
                draw as int,
            ),
            has_grown_from(final(self).nodes(), old(self).nodes()),
            has_new_child(final(self).nodes(), old(self).nodes(), node_idx as int),
    {
        let ghost before_snapshots = self.snapshots();
        let ghost before_cursor = self.cursor();
        let unexplored: Vec<usize> = directions_of(self.tree[node_idx].moves_to_explore);
        let move_shift: usize = unexplored[pick];
        self.history.push(self.board);
        self.board.apply_move(flag_of(move_shift), self.table);
        if self.board.empties().len() > 0 {
            self.board.spawn_tile(cell, draw);
        }
        let fresh = Node::new(&self.board, self.table);
        attach(&mut self.tree, node_idx, move_shift, fresh);
        proof {
            assert(self.snapshots() =~= before_snapshots.push(before_cursor));
            self.lemma_expanded(old(self), node_idx as int, pick as int, cell as int, draw as int);
        }
    }

    /// A sound search is sound after an expansion, and its root is the same.
    proof fn lemma_expanded(&self, before: &Self, at: int, pick: int, cell: int, draw: int)
        requires
            before.wf(),
            0 <= at < before.nodes().len(),
            before.nodes().len() + 1 < ABSENT,
            0 <= pick < directions(before.nodes()[at].moves_to_explore).len(),
            self.expanded_from(before, at, pick, cell, draw),
            is_grid(self.cursor()),
        ensures
            self.wf(),
            self.root() == before.root(),
            has_grown_from(self.nodes(), before.nodes()),
            has_new_child(self.nodes(), before.nodes(), at),
    {
        let mask = before.nodes()[at].moves_to_explore;
        let d = directions(mask)[pick];
        lemma_directions(mask, 4);
        lemma_expansion(before.nodes(), self.nodes(), at, d, self.cursor());
        lemma_expansion_grows(before.nodes(), self.nodes(), at, d, self.cursor());
        assert(self.root() == before.root());
        assert forall|i: int| 0 <= i < self.nodes().len() implies (
        #[trigger] self.nodes()[i]).visits <= self.rounds() by {
            if i < before.nodes().len() {
                assert(before.nodes()[i].visits <= before.rounds());
            }
        }
        assert forall|i: int| 0 <= i < self.snapshots().len() implies is_grid(
            #[trigger] self.snapshots()[i],
        ) by {
            if i < before.snapshots().len() {
                assert(is_grid(before.snapshots()[i]));
            }
        }
    }

    /// This search is as `before` was.
    pub open spec fn same_as(&self, before: &Self) -> bool {
        &&& self.cursor() == before.cursor()
        &&& self.nodes() == before.nodes()
        &&& self.snapshots() == before.snapshots()
        &&& self.path() == before.path()
        &&& self.rounds() == before.rounds()
        &&& self.same_terms(before)
    }

    /// Expands a node in a direction picked at random among those that it
    /// has to explore, with a new tile on a cell picked at random. Nothing
    /// happens if the node has no direction to explore, or if the tree
    /// cannot hold another node.
    pub fn expand(&mut self, node_idx: usize)
        requires
            old(self).wf(),
            node_idx < old(self).nodes().len(),
        ensures
            final(self).wf(),
            final(self).root() == old(self).root(),
            if directions(old(self).nodes()[node_idx as int].moves_to_explore).len() == 0 || old(
                self,
            ).nodes().len() + 1 >= ABSENT {
                final(self).same_as(old(self))
            } else {
                exists|pick: int, cell: int, draw: int|
                    {
                        &&& 0 <= pick < directions(
                            old(self).nodes()[node_idx as int].moves_to_explore,
                        ).len()
                        &&& 0 <= draw < 10
                        &&& #[trigger] final(self).expanded_from(
                            old(self),
                            node_idx as int,
                            pick,
                            cell,
                            draw,
                        )
                        &&& ({
                            let d = directions(
                                old(self).nodes()[node_idx as int].moves_to_explore,
                            )[pick];
                            let free = empty_cells(moved(old(self).cursor(), d)).len();
                            free == 0 || 0 <= cell < free
                        })
                    }
            },
            has_grown_from(final(self).nodes(), old(self).nodes()),
            final(self).nodes().len() <= old(self).nodes().len() + 1,
            directions(old(self).nodes()[node_idx as int].moves_to_explore).len() > 0
                && old(self).nodes().len() + 1 < ABSENT ==> has_new_child(
                final(self).nodes(),
                old(self).nodes(),
                node_idx as int,
            ),
    {
        let unexplored: Vec<usize> = directions_of(self.tree[node_idx].moves_to_explore);
        if unexplored.len() == 0 || self.tree.len() >= ABSENT - 1 {
            return ;
        }
        let pick: usize = self.dice.below(unexplored.len());
        let move_shift: usize = unexplored[pick];
        let ghost before_snapshots = self.snapshots();
        let ghost before_cursor = self.cursor();
        self.history.push(self.board);
        self.board.apply_move(flag_of(move_shift), self.table);
        let free: usize = self.board.empties().len();
        let ghost mut cell: int = 0;
        let ghost mut draw: int = 0;
        if free > 0 {
            let on: usize = self.dice.below(free);
            let tile: usize = self.dice.below(10);
            self.board.spawn_tile(on, tile);
            proof {
                cell = on as int;
                draw = tile as int;
            }
        }
        let fresh = Node::new(&self.board, self.table);
        attach(&mut self.tree, node_idx, move_shift, fresh);
        proof {
            assert(self.snapshots() =~= before_snapshots.push(before_cursor));
            assert(self.expanded_from(old(self), node_idx as int, pick as int, cell, draw));
            self.lemma_expanded(old(self), node_idx as int, pick as int, cell, draw);
        }
    }

    /// Plays from the cursor, on a copy of it: legal moves picked at random,
    /// each followed by a new tile, until no move is legal or 30 plies were
    /// played. Returns the score of the last board.
    pub fn rollout(&mut self) -> (reward: u64)
        requires
            old(self).wf(),
        ensures
            final(self).same_as(old(self)),
            reward <= MAX_REWARD,
            exists|trace: Seq<Grid>|
                #[trigger] is_playout(trace) && trace[0] == old(self).cursor() && reward == score(
                    trace.last(),
                ),
    {
        let mut board: Board = self.board;
        let mut plies: usize = 0;
        let ghost mut trace: Seq<Grid> = seq![self.cursor()];
        while plies < 30
            invariant
                plies <= 30,
                self.same_as(old(self)),
                trace.len() == plies + 1,
                trace[0] == self.cursor(),
                trace.last() == board@,
                is_grid(board@),
                forall|i: int|
                    0 <= i < trace.len() - 1 ==> is_ply(#[trigger] trace[i], trace[i + 1]),
            ensures
                plies == 30 || is_lost(board@),
            decreases 30 - plies,
        {
            let legal_moves: Move = board.get_legal_moves(self.table);
            if legal_moves == 0 {
                proof {
                    lemma_legal_mask(board@);
                }
                break ;
            }
            let legal: Vec<usize> = directions_of(legal_moves);
            proof {
                lemma_directions(legal_moves, 4);
                assert(legal_moves != 0 && legal_moves < 16 ==> (legal_moves & 1 != 0 || legal_moves
                    & 2 != 0 || legal_moves & 4 != 0 || legal_moves & 8 != 0)) by (bit_vector);
                assert(allows(legal_moves, 0) || allows(legal_moves, 1) || allows(legal_moves, 2)
                    || allows(legal_moves, 3));
            }
            let shift: usize = legal[self.dice.below(legal.len())];
            let ghost before = board@;
            board.apply_move(flag_of(shift), self.table);
            proof {
                lemma_legal_move_leaves_gap(before, shift as int);
            }
            board.add_random_tile(&mut self.dice);
            proof {
                assert(is_ply(before, board@));
                let longer = trace.push(board@);
                assert forall|i: int| 0 <= i < longer.len() - 1 implies is_ply(
                    #[trigger] longer[i],
                    longer[i + 1],
                ) by {
                    if i < trace.len() - 1 {
                        assert(longer[i] == trace[i] && longer[i + 1] == trace[i + 1]);
                    }
                }
                trace = longer;
            }
            plies = plies + 1;
        }
        proof {
            lemma_score_is_bounded(board@, 16);
            assert(is_playout(trace));
        }
        board.evaluate()
    }

    /// Brings the cursor back to the root and forgets the path and the
    /// snapshots.
    fn rewind(&mut self)
        requires
            is_grid(old(self).cursor()),
            forall|i: int|
                0 <= i < old(self).snapshots().len() ==> is_grid(
                    #[trigger] old(self).snapshots()[i],
                ),
        ensures
            final(self).cursor() == old(self).root(),
            is_grid(final(self).cursor()),
            final(self).at_rest(),
            final(self).nodes() == old(self).nodes(),
            final(self).rounds() == old(self).rounds(),
            final(self).same_terms(old(self)),
    {
        if self.history.len() > 0 {
            assert(self.snapshots()[0] == self.history@[0]@);
            self.board = self.history[0];
            self.history.clear();
        }
        self.selection_line.clear();
    }

    /// Ends a round in which selection came to a node without a legal
    /// move: the cursor goes back to the root, and the tree stays as it is.
    pub fn abandon(&mut self)
        requires
            old(self).wf(),
            old(self).rounds() < u32::MAX,
        ensures
            final(self).wf(),
            final(self).at_rest(),
            final(self).cursor() == old(self).root(),
            final(self).nodes() == old(self).nodes(),
            final(self).rounds() == old(self).rounds() + 1,
            final(self).same_terms(old(self)),
    {
        self.rewind();
        self.iterations = self.iterations + 1;
    }

    /// Ends a round: every node of the path gets one more visit and the
    /// reward of the round, and the cursor goes back to the root.
    pub fn backpropagate(&mut self, result: u64)
        requires
            old(self).wf(),
            old(self).rounds() < u32::MAX,
            result <= MAX_REWARD,
        ensures
            final(self).wf(),
            final(self).at_rest(),
            final(self).cursor() == old(self).root(),
            final(self).rounds() == old(self).rounds() + 1,
            final(self).same_terms(old(self)),
            final(self).nodes().len() == old(self).nodes().len(),
            has_grown_from(final(self).nodes(), old(self).nodes()),
            forall|i: int|
                0 <= i < old(self).nodes().len() ==> #[trigger] final(self).nodes()[i]
                    == if on_path(old(self).path(), 0, i) {
                    credited(old(self).nodes()[i], result)
                } else {
                    old(self).nodes()[i]
                },
    {
        let ghost path0 = self.path();
        let ghost nodes0 = self.nodes();
        while self.selection_line.len() > 0
            invariant
                self.path().len() <= path0.len(),
                self.path() =~= path0.take(self.path().len() as int),
                path_ok(path0, nodes0.len() as int),
                tree_ok(nodes0),
                self.nodes().len() == nodes0.len(),
                forall|i: int|
                    0 <= i < nodes0.len() ==> #[trigger] self.nodes()[i] == if on_path(
                        path0,
                        self.path().len() as int,
                        i,
                    ) {
                        credited(nodes0[i], result)
                    } else {
                        nodes0[i]
                    },
                forall|i: int|
                    0 <= i < nodes0.len() ==> (#[trigger] nodes0[i]).visits <= self.rounds(),
                self.rounds() == old(self).rounds(),
                self.rounds() < u32::MAX,
                result <= MAX_REWARD,
                self.root() == old(self).root(),
                self.same_terms(old(self)),
                is_grid(self.cursor()),
                forall|i: int|
                    0 <= i < self.snapshots().len() ==> is_grid(#[trigger] self.snapshots()[i]),
            decreases self.path().len(),
        {
            let ghost k = self.path().len() as int;
            let ghost before = self.nodes();
            let node_idx: usize = self.selection_line.pop().unwrap();
            proof {
                assert(node_idx == path0[k - 1]);
                assert(!on_path(path0, k, node_idx as int));
                assert(before[node_idx as int] == nodes0[node_idx as int]);
                assert(node_ok(nodes0[node_idx as int], node_idx as int, nodes0.len() as int));
            }
            self.tree[node_idx].rewards = self.tree[node_idx].rewards + result as u128;
            self.tree[node_idx].visits = self.tree[node_idx].visits + 1;
            if self.history.len() > 0 {
                let ghost shots = self.snapshots();
                let last: Board = self.history.pop().unwrap();
                self.board = last;
                proof {
                    assert(self.snapshots() =~= shots.drop_last());
                    assert(self.cursor() == shots.last());
                }
            }
            proof {
                assert forall|i: int| 0 <= i < nodes0.len() implies #[trigger] self.nodes()[i]
                    == if on_path(path0, k - 1, i) {
                    credited(nodes0[i], result)
                } else {
                    nodes0[i]
                } by {
                    if i == node_idx {
                        assert(on_path(path0, k - 1, i));
                    } else if on_path(path0, k - 1, i) {
                        let j = choose|j: int| k - 1 <= j < path0.len() && #[trigger] path0[j] == i;
                        assert(on_path(path0, k, i));
                    } else {
                        assert(!on_path(path0, k, i));
                    }
                }
            }
        }
        self.rewind();
        self.iterations = self.iterations + 1;
        proof {
            let nodes = self.nodes();
            assert forall|i: int| 0 <= i < nodes.len() implies node_ok(
                #[trigger] nodes[i],
                i,
                nodes.len() as int,
            ) && nodes[i].visits <= self.rounds() by {
                assert(node_ok(nodes0[i], i, nodes0.len() as int));
            }
        }
    }

    /// The move that the search advises: among the directions that are
    /// legal at the root and have a child, the first whose child has the
    /// greatest rewards. No move, that is 0, if the root has no child.
    pub fn best_move(&self) -> (best: Move)
        requires
            self.wf(),
        ensures
            best == 0 <==> forall|d: int| 0 <= d < 4 ==> !is_grown(self.nodes(), d),
            best != 0 ==> is_move(best) && is_best_child(self.nodes(), direction_of(best)),
    {
        let mut best_move: Move = 0;
        let mut best_score: u128 = 0;
        let mut i: usize = 0;
        while i < 4
            invariant
                i <= 4,
                self.wf(),
                best_move == 0 <==> forall|d: int| 0 <= d < i ==> !is_grown(self.nodes(), d),
                best_move != 0 ==> {
                    &&& is_move(best_move)
                    &&& direction_of(best_move) < i
                    &&& is_grown(self.nodes(), direction_of(best_move))
                    &&& best_score == child_rewards(self.nodes(), direction_of(best_move))
                    &&& forall|e: int|
                        0 <= e < i && #[trigger] is_grown(self.nodes(), e) ==> child_rewards(
                            self.nodes(),
                            e,
                        ) <= best_score && (e < direction_of(best_move) ==> child_rewards(
                            self.nodes(),
                            e,
                        ) < best_score)
                },
            decreases 4 - i,
        {
            let child_idx: usize = self.tree[0].children_indices[i];
            if has_direction(self.tree[0].moves, i) && child_idx != ABSENT {
                assert(is_grown(self.nodes(), i as int));
                assert(node_ok(self.nodes()[0], 0, self.nodes().len() as int));
                let score: u128 = self.tree[child_idx].rewards;
                if best_move == 0 || score > best_score {
                    best_score = score;
                    best_move = flag_of(i);
                }
            }
            i = i + 1;
        }
        best_move
    }

    /// Plays one round. Selection goes down the tree. Where it comes to a
    /// node with a legal move, the node is expanded, a rollout is played from
    /// the new position, and its reward goes to the nodes of the path; where
    /// it comes to a node without a legal move, the round ends there. Either
    /// way the cursor is back at the root.
    ///
    /// The round adds one node to the tree unless selection came to a node
    /// without a legal move, or the tree cannot hold another node. After the
    /// round a root with a legal move has a child.
    pub fn play_round(&mut self)
        requires
            old(self).wf(),
            old(self).at_rest(),
            old(self).rounds() < u32::MAX,
        ensures
            final(self).wf(),
            final(self).at_rest(),
            final(self).cursor() == old(self).cursor(),
            final(self).same_terms(old(self)),
            final(self).rounds() == old(self).rounds() + 1,
            has_grown_from(final(self).nodes(), old(self).nodes()),
            final(self).nodes().len() <= old(self).nodes().len() + 1,
            final(self).nodes().len() == old(self).nodes().len() + 1 || old(self).nodes().len() + 1
                >= ABSENT || (final(self).nodes() == old(self).nodes() && !has_no_lost_node(
                old(self).nodes(),
            )),
            has_no_lost_node(old(self).nodes()) && old(self).nodes().len() + 1 < ABSENT
                ==> final(self).nodes().len() == old(self).nodes().len() + 1,
            old(self).nodes()[0].moves != 0 && old(self).nodes().len() + 1 < ABSENT ==> has_grown(
                final(self).nodes(),
            ),
    {
        let ghost before = self.nodes();
        proof {
            lemma_root_without_child(before);
        }
        match self.select() {
            Some(selected_node_idx) => {
                self.expand(selected_node_idx);
                let ghost expanded = self.nodes();
                let result: u64 = self.rollout();
                self.backpropagate(result);
                proof {
                    lemma_growth_goes_on(before, expanded, self.nodes());
                    if before[0].moves != 0 && before.len() + 1 < ABSENT {
                        if !has_grown(before) {
                            lemma_new_child_of_root(before, expanded);
                        } else {
                            lemma_growth_keeps_child(before, expanded);
                        }
                        lemma_growth_keeps_child(expanded, self.nodes());
                    }
                }
            },
            None => {
                self.abandon();
            },
        }
    }

    /// Plays rounds until the time of the search is spent or the search is
    /// stopped, which is looked at after every round, and returns the move
    /// advised: a legal move of the root, or 0 if the root has no child.
    ///
    /// The first round is played whatever the clock and the flag say. So a
    /// search from a root with a legal move advises a move, and a search on
    /// a tree in which every node has a legal move adds a node. A round adds
    /// at most one node to the tree. The search also ends when as many
    /// rounds were played as a node can count visits.
    pub fn search(&mut self) -> (best: Move)
        requires
            old(self).wf(),
            old(self).at_rest(),
        ensures
            final(self).wf(),
            final(self).at_rest(),
            final(self).cursor() == old(self).cursor(),
            final(self).same_terms(old(self)),
            final(self).rounds() >= old(self).rounds(),
            old(self).rounds() < u32::MAX ==> final(self).rounds() > old(self).rounds(),
            has_grown_from(final(self).nodes(), old(self).nodes()),
            final(self).nodes().len() - old(self).nodes().len() <= final(self).rounds() - old(
                self,
            ).rounds(),
            old(self).rounds() < u32::MAX && old(self).nodes().len() + 1 < ABSENT
                && has_no_lost_node(old(self).nodes()) ==> final(self).nodes().len() > old(
                self,
            ).nodes().len(),
            old(self).rounds() < u32::MAX && old(self).nodes().len() + 1 < ABSENT && old(
                self,
            ).nodes()[0].moves != 0 ==> best != 0,
            old(self).rounds() < u32::MAX && old(self).nodes().len() == 1 && old(
                self,
            ).nodes()[0].moves != 0 ==> final(self).nodes().len() >= 2 && best != 0,
            best == 0 <==> forall|d: int| 0 <= d < 4 ==> !is_grown(final(self).nodes(), d),
            best != 0 ==> is_move(best) && is_best_child(final(self).nodes(), direction_of(best))
                && changes(old(self).cursor(), direction_of(best)),
    {
        while self.iterations < u32::MAX
            invariant
                self.wf(),
                self.at_rest(),
                self.cursor() == old(self).cursor(),
                self.same_terms(old(self)),
                self.rounds() >= old(self).rounds(),
                has_grown_from(self.nodes(), old(self).nodes()),
                self.nodes().len() - old(self).nodes().len() <= self.rounds() - old(self).rounds(),
                self.rounds() == old(self).rounds() ==> self.nodes() == old(self).nodes(),
                self.rounds() > old(self).rounds() && old(self).nodes().len() + 1 < ABSENT
                    && has_no_lost_node(old(self).nodes()) ==> self.nodes().len() > old(
                    self,
                ).nodes().len(),
                self.rounds() > old(self).rounds() && old(self).nodes().len() + 1 < ABSENT && old(
                    self,
                ).nodes()[0].moves != 0 ==> has_grown(self.nodes()),
            ensures
                old(self).rounds() < u32::MAX ==> self.rounds() > old(self).rounds(),
            decreases u32::MAX - self.rounds(),
        {
            let ghost before = self.nodes();
            self.play_round();
            proof {
                lemma_growth_goes_on(old(self).nodes(), before, self.nodes());
                if has_grown(before) {
                    lemma_growth_keeps_child(before, self.nodes());
                }
            }
            if budget_spent(self.time_spent(), self.time_limit, is_raised(self.stopped)) {
                break ;
            }
        }
        let best: Move = self.best_move();
        proof {
            lemma_legal_mask(self.cursor());
        }
        best
    }
}

} // verus!
