use mcts2048::board::{Board, GameState, MOVE_DOWN, MOVE_LEFT, MOVE_RIGHT, MOVE_UP};
use mcts2048::chance::Dice;
use mcts2048::line::{build_move_lut, MoveTable};
use mcts2048::node::{Node, ABSENT, MAX_REWARD};
use mcts2048::searcher::Searcher;
use mcts2048::selection::{directions_of, flag_of, has_direction, Rank};
use std::sync::atomic::AtomicBool;

fn ucb1(rewards: u128, visits: u32, parent_visits: u32) -> u64 {
    let score = rewards as f32 / visits as f32
        + f32::sqrt(2.0 * f32::ln(parent_visits as f32) / visits as f32);
    score.to_bits() as u64
}

fn start_board() -> Board {
    Board::from_fen("0000/1211/2232/2222").unwrap()
}

#[test]
fn selection_test() {
    let stopped = AtomicBool::new(false);
    let table = build_move_lut();
    let mut a = Searcher::new(start_board(), 3000, &stopped, &table, ucb1, Dice::seeded(7));
    let selected_idx = a.select();
    assert_eq!(selected_idx, Some(0));
    assert_eq!(a.selection_line().as_slice(), []);
}

#[test]
fn new_searcher_holds_the_root_alone() {
    let stopped = AtomicBool::new(false);
    let table = build_move_lut();
    let board = start_board();
    let a = Searcher::new(board, 3000, &stopped, &table, ucb1, Dice::seeded(7));
    assert_eq!(a.tree().len(), 1);
    let root = &a.tree()[0];
    assert_eq!(root.state, GameState::OnGoing);
    assert_eq!(root.moves, board.get_legal_moves(&table));
    assert_eq!(root.moves_to_explore, root.moves);
    assert_eq!(root.visits, 0);
    assert_eq!(root.rewards, 0);
    assert_eq!(root.children_indices, [ABSENT; 4]);
    assert_eq!(a.iterations(), 0);
    assert_eq!(a.board().squares(), board.squares());
}

#[test]
fn select_on_lost_root_gives_nothing() {
    let stopped = AtomicBool::new(false);
    let table = build_move_lut();
    let lost = Board::new([[1, 2, 1, 2], [2, 1, 2, 1], [1, 2, 1, 2], [2, 1, 2, 1]]);
    let mut a = Searcher::new(lost, 3000, &stopped, &table, ucb1, Dice::seeded(7));
    assert_eq!(a.tree()[0].state, GameState::Lost);
    assert_eq!(a.select(), None);
    assert_eq!(a.selection_line().len(), 0);
}

#[test]
fn expand_with_grows_the_tree() {
    let stopped = AtomicBool::new(false);
    let table = build_move_lut();
    let board = start_board();
    let mut a = Searcher::new(board, 3000, &stopped, &table, ucb1, Dice::seeded(7));
    // The legal moves of the start are all four. The third to explore is up.
    assert_eq!(a.tree()[0].moves, 15);
    a.expand_with(0, 2, 0, 9);
    assert_eq!(a.tree().len(), 2);
    assert_eq!(a.tree()[0].children_indices, [ABSENT, ABSENT, 1, ABSENT]);
    assert_eq!(a.tree()[0].moves_to_explore, MOVE_LEFT | MOVE_RIGHT | MOVE_DOWN);
    assert_eq!(a.tree()[0].moves, 15);
    // Up: columns 0121/0222/0132/0122 slide to the top, and the first empty
    // cell gets a tile of exponent 2.
    let mut expected = board;
    assert!(expected.move_up(&table));
    assert_eq!(expected.squares(), [[1, 3, 1, 1], [3, 2, 3, 3], [0, 0, 2, 0], [0, 0, 0, 0]]);
    assert_eq!(a.board().squares(), [[1, 3, 1, 1], [3, 2, 3, 3], [2, 0, 2, 0], [0, 0, 0, 0]]);
    assert_eq!(a.history_len(), 1);
    assert_eq!(a.selection_line().len(), 0);
    let child = &a.tree()[1];
    assert_eq!(child.moves, a.board().get_legal_moves(&table));
    assert_eq!(child.moves_to_explore, child.moves);
    assert_eq!(child.visits, 0);
    assert_eq!(child.rewards, 0);
    assert_eq!(child.children_indices, [ABSENT; 4]);
}

#[test]
fn backpropagate_restores_the_root() {
    let stopped = AtomicBool::new(false);
    let table = build_move_lut();
    let board = start_board();
    let mut a = Searcher::new(board, 3000, &stopped, &table, ucb1, Dice::seeded(7));
    assert_eq!(a.select(), Some(0));
    a.expand_with(0, 0, 0, 0);
    a.backpropagate(100);
    assert_eq!(a.board().squares(), board.squares());
    assert_eq!(a.history_len(), 0);
    assert_eq!(a.selection_line().len(), 0);
    assert_eq!(a.iterations(), 1);
    // The path was empty: no node was visited.
    assert_eq!(a.tree()[0].visits, 0);
    assert_eq!(a.tree()[0].rewards, 0);
    assert_eq!(a.tree()[1].visits, 0);

    // The second round steps down from the root to its only child.
    assert_eq!(a.select(), Some(1));
    assert_eq!(a.selection_line().as_slice(), [0]);
    assert_eq!(a.history_len(), 1);
    let mut moved = board;
    moved.move_left(&table);
    assert_eq!(a.board().squares(), moved.squares());
    a.expand(1);
    assert_eq!(a.tree().len(), 3);
    assert_eq!(a.history_len(), 2);
    a.backpropagate(70);
    assert_eq!(a.tree()[0].visits, 1);
    assert_eq!(a.tree()[0].rewards, 70);
    assert_eq!(a.tree()[1].visits, 0);
    assert_eq!(a.tree()[2].visits, 0);
    assert_eq!(a.board().squares(), board.squares());
    assert_eq!(a.iterations(), 2);
}

#[test]
fn abandon_restores_the_root() {
    let stopped = AtomicBool::new(false);
    let table = build_move_lut();
    let lost = Board::new([[1, 2, 1, 2], [2, 1, 2, 1], [1, 2, 1, 2], [2, 1, 2, 1]]);
    let mut a = Searcher::new(lost, 3000, &stopped, &table, ucb1, Dice::seeded(7));
    assert_eq!(a.select(), None);
    a.abandon();
    assert_eq!(a.iterations(), 1);
    assert_eq!(a.tree().len(), 1);
    assert_eq!(a.board().squares(), lost.squares());
}

#[test]
fn rollout_scores_a_lost_board_as_it_is() {
    let stopped = AtomicBool::new(false);
    let table = build_move_lut();
    let lost = Board::new([[1, 2, 1, 2], [2, 1, 2, 1], [1, 2, 1, 2], [2, 1, 2, 1]]);
    let mut a = Searcher::new(lost, 3000, &stopped, &table, ucb1, Dice::seeded(7));
    assert_eq!(a.rollout(), 8 * 2 + 8 * 4);
    assert_eq!(a.board().squares(), lost.squares());
}

#[test]
fn rollout_leaves_the_cursor() {
    let stopped = AtomicBool::new(false);
    let table = build_move_lut();
    let board = start_board();
    let mut a = Searcher::new(board, 3000, &stopped, &table, ucb1, Dice::seeded(7));
    for _ in 0..20 {
        let reward = a.rollout();
        assert!(reward <= MAX_REWARD);
        // Tiles never vanish: the sum of the tiles only grows.
        assert!(reward >= 2 * 3 + 4 * 8 + 8);
        assert_eq!(a.board().squares(), board.squares());
    }
}

#[test]
fn stopped_search_plays_one_round() {
    let stopped = AtomicBool::new(true);
    let table = build_move_lut();
    let board = start_board();
    let mut a = Searcher::new(board, 1_000_000, &stopped, &table, ucb1, Dice::seeded(7));
    let best = a.search();
    assert_eq!(a.iterations(), 1);
    assert_eq!(a.tree().len(), 2);
    assert!(best == MOVE_LEFT || best == MOVE_RIGHT || best == MOVE_UP || best == MOVE_DOWN);
    assert!(best & board.get_legal_moves(&table) != 0);
    assert_eq!(a.board().squares(), board.squares());
}

#[test]
fn search_without_time_plays_one_round() {
    let stopped = AtomicBool::new(false);
    let table = build_move_lut();
    let board = Board::new([[1, 2, 1, 2], [2, 1, 2, 1], [1, 2, 1, 2], [2, 1, 2, 0]]);
    let mut a = Searcher::new(board, 0, &stopped, &table, ucb1, Dice::seeded(7));
    let best = a.search();
    assert_eq!(a.iterations(), 1);
    assert!(best == MOVE_RIGHT || best == MOVE_DOWN);
}

#[test]
fn search_on_lost_board_advises_no_move() {
    let stopped = AtomicBool::new(true);
    let table = build_move_lut();
    let lost = Board::new([[1, 2, 1, 2], [2, 1, 2, 1], [1, 2, 1, 2], [2, 1, 2, 1]]);
    let mut a = Searcher::new(lost, 10, &stopped, &table, ucb1, Dice::seeded(7));
    assert_eq!(a.search(), 0);
    assert_eq!(a.tree().len(), 1);
}

#[test]
fn search_advises_a_legal_move() {
    let stopped = AtomicBool::new(false);
    let table = build_move_lut();
    let board = start_board();
    let mut a = Searcher::new(board, 30, &stopped, &table, ucb1, Dice::seeded(7));
    let best = a.search();
    assert!(a.iterations() >= 1);
    assert!(best & board.get_legal_moves(&table) != 0);
    assert_eq!(best.count_ones(), 1);
    assert_eq!(a.board().squares(), board.squares());
    let tree: &Vec<Node> = a.tree();
    for (at, node) in tree.iter().enumerate() {
        assert_eq!(node.moves_to_explore & !node.moves, 0);
        assert!(node.visits <= a.iterations());
        assert!(node.rewards <= node.visits as u128 * MAX_REWARD as u128);
        for d in 0..4 {
            let child = node.children_indices[d];
            if child == ABSENT {
                assert_eq!(has_direction(node.moves_to_explore, d), has_direction(node.moves, d));
            } else {
                assert!(at < child && child < tree.len());
                assert!(!has_direction(node.moves_to_explore, d));
            }
        }
    }
}

#[test]
fn best_move_takes_the_greatest_rewards() {
    let stopped = AtomicBool::new(false);
    let table = build_move_lut();
    let board = start_board();
    let mut a = Searcher::new(board, 3000, &stopped, &table, ucb1, Dice::seeded(7));
    assert_eq!(a.best_move(), 0);
    a.expand_with(0, 1, 0, 0);
    a.backpropagate(1);
    // The only child is that of the second direction, right.
    assert_eq!(a.best_move(), MOVE_RIGHT);
    a.expand_with(0, 0, 0, 0);
    a.backpropagate(1);
    // Both children have no rewards: the first direction wins.
    assert_eq!(a.best_move(), MOVE_LEFT);
}

#[test]
fn ranks_and_directions() {
    assert!(Rank::Unvisited.beats(Rank::Rated(u64::MAX)));
    assert!(!Rank::Unvisited.beats(Rank::Unvisited));
    assert!(!Rank::Rated(7).beats(Rank::Unvisited));
    assert!(Rank::Rated(7).beats(Rank::Rated(6)));
    assert!(!Rank::Rated(7).beats(Rank::Rated(7)));
    assert_eq!(directions_of(0), Vec::<usize>::new());
    assert_eq!(directions_of(MOVE_RIGHT | MOVE_DOWN), vec![1, 3]);
    assert_eq!(directions_of(15), vec![0, 1, 2, 3]);
    assert_eq!(flag_of(0), MOVE_LEFT);
    assert_eq!(flag_of(1), MOVE_RIGHT);
    assert_eq!(flag_of(2), MOVE_UP);
    assert_eq!(flag_of(3), MOVE_DOWN);
}

#[test]
fn table_is_shared_by_searches() {
    let table: MoveTable = build_move_lut();
    let stopped = AtomicBool::new(true);
    let mut first = Searcher::new(start_board(), 1, &stopped, &table, ucb1, Dice::seeded(7));
    let mut second = Searcher::new(start_board(), 1, &stopped, &table, ucb1, Dice::seeded(7));
    assert!(first.search() != 0);
    assert!(second.search() != 0);
}

#[test]
fn same_seed_same_search() {
    let table = build_move_lut();
    let stopped = AtomicBool::new(false);
    let board = start_board();
    let mut first = Searcher::new(board, 3000, &stopped, &table, ucb1, Dice::seeded(2048));
    let mut second = Searcher::new(board, 3000, &stopped, &table, ucb1, Dice::seeded(2048));
    for _ in 0..50 {
        let a = first.select();
        let b = second.select();
        assert_eq!(a, b);
        assert_eq!(first.selection_line(), second.selection_line());
        match a {
            Some(at) => {
                first.expand(at);
                second.expand(at);
                assert_eq!(first.board().squares(), second.board().squares());
                let reward = first.rollout();
                assert_eq!(reward, second.rollout());
                first.backpropagate(reward);
                second.backpropagate(reward);
            }
            None => {
                first.abandon();
                second.abandon();
            }
        }
    }
    assert_eq!(first.tree().len(), second.tree().len());
    for (a, b) in first.tree().iter().zip(second.tree().iter()) {
        assert_eq!(a.moves, b.moves);
        assert_eq!(a.moves_to_explore, b.moves_to_explore);
        assert_eq!(a.visits, b.visits);
        assert_eq!(a.rewards, b.rewards);
        assert_eq!(a.children_indices, b.children_indices);
    }
    assert_eq!(first.best_move(), second.best_move());
}

#[test]
fn expand_without_a_direction_to_explore_does_nothing() {
    let stopped = AtomicBool::new(false);
    let table = build_move_lut();
    let lost = Board::new([[1, 2, 1, 2], [2, 1, 2, 1], [1, 2, 1, 2], [2, 1, 2, 1]]);
    let mut a = Searcher::new(lost, 3000, &stopped, &table, ucb1, Dice::seeded(7));
    a.expand(0);
    assert_eq!(a.tree().len(), 1);
    assert_eq!(a.history_len(), 0);
    assert_eq!(a.board().squares(), lost.squares());

    // A root with two legal moves is explored after two expansions.
    let board = Board::new([[1, 2, 1, 2], [2, 1, 2, 1], [1, 2, 1, 2], [2, 1, 2, 0]]);
    let mut b = Searcher::new(board, 3000, &stopped, &table, ucb1, Dice::seeded(7));
    assert_eq!(b.tree()[0].moves, MOVE_RIGHT | MOVE_DOWN);
    b.expand(0);
    b.backpropagate(0);
    b.expand(0);
    b.backpropagate(0);
    assert_eq!(b.tree().len(), 3);
    assert_eq!(b.tree()[0].moves_to_explore, 0);
    let children = b.tree()[0].children_indices;
    assert!(children == [ABSENT, 1, ABSENT, 2] || children == [ABSENT, 2, ABSENT, 1]);
    b.expand(0);
    assert_eq!(b.tree().len(), 3);
    assert_eq!(b.history_len(), 0);
}

#[test]
fn selection_follows_the_scores() {
    // Scores that prefer the child with the greater rewards.
    fn by_rewards(rewards: u128, _visits: u32, _parent_visits: u32) -> u64 {
        rewards as u64
    }
    let stopped = AtomicBool::new(false);
    let table = build_move_lut();
    let board = Board::from_fen("0000/1211/2232/2222").unwrap();
    let mut a = Searcher::new(board, 3000, &stopped, &table, by_rewards, Dice::seeded(3));
    // Children of the root in all four directions.
    for _ in 0..4 {
        a.expand_with(0, 0, 0, 0);
        a.backpropagate(0);
    }
    assert_eq!(a.tree()[0].children_indices, [1, 2, 3, 4]);
    assert_eq!(a.tree()[0].moves_to_explore, 0);
    // No node was visited: the first direction is taken, down to its child.
    assert_eq!(a.select(), Some(1));
    assert_eq!(a.selection_line().as_slice(), [0]);
    a.expand_with(1, 0, 0, 0);
    a.backpropagate(5);
    assert_eq!(a.tree()[0].visits, 1);
    assert_eq!(a.tree()[0].rewards, 5);
    assert_eq!(a.tree()[1].visits, 0);
    // The children of the root were not visited yet: still the first.
    assert_eq!(a.select(), Some(5));
    assert_eq!(a.selection_line().as_slice(), [0, 1]);
    a.backpropagate(9);
    assert_eq!(a.tree()[0].visits, 2);
    assert_eq!(a.tree()[0].rewards, 14);
    assert_eq!(a.tree()[1].visits, 1);
    assert_eq!(a.tree()[1].rewards, 9);
    assert_eq!(a.tree()[5].visits, 0);
    // Now the first child is rated and the others are not: the second
    // direction ranks above it.
    assert_eq!(a.select(), Some(2));
    assert_eq!(a.selection_line().as_slice(), [0]);
    assert_eq!(a.history_len(), 1);
    a.abandon();
    assert_eq!(a.history_len(), 0);
    assert_eq!(a.board().squares(), board.squares());
}

#[test]
fn search_from_a_root_with_one_legal_move_advises_it() {
    let table = build_move_lut();
    let board = Board::new([[1, 0, 0, 0], [2, 0, 0, 0], [1, 0, 0, 0], [2, 0, 0, 0]]);
    assert_eq!(board.get_legal_moves(&table), MOVE_RIGHT);
    let flag = AtomicBool::new(false);
    let mut s = Searcher::new(board, 20, &flag, &table, ucb1, Dice::seeded(5));
    assert_eq!(s.search(), MOVE_RIGHT);
    assert!(s.tree().len() >= 2);
    assert_eq!(s.tree()[0].children_indices, [ABSENT, 1, ABSENT, ABSENT]);

    let stopped = AtomicBool::new(true);
    let mut once = Searcher::new(board, 1000, &stopped, &table, ucb1, Dice::seeded(5));
    assert_eq!(once.search(), MOVE_RIGHT);
    assert_eq!(once.tree().len(), 2);
    assert_eq!(once.iterations(), 1);
}

#[test]
fn a_round_adds_a_node_and_restores_the_root() {
    let stopped = AtomicBool::new(false);
    let table = build_move_lut();
    let board = start_board();
    let mut a = Searcher::new(board, 3000, &stopped, &table, ucb1, Dice::seeded(11));
    for round in 1..=40 {
        a.play_round();
        assert_eq!(a.iterations(), round);
        assert!(a.tree().len() <= round as usize + 1);
        assert_eq!(a.board().squares(), board.squares());
        assert_eq!(a.history_len(), 0);
        assert_eq!(a.selection_line().len(), 0);
        assert!(a.best_move() != 0);
    }
    // The first round expands the root.
    let mut b = Searcher::new(board, 3000, &stopped, &table, ucb1, Dice::seeded(11));
    b.play_round();
    assert_eq!(b.tree().len(), 2);
    assert_eq!(b.tree()[0].visits, 0);

    // On a lost root a round changes nothing but the count of rounds.
    let lost = Board::new([[1, 2, 1, 2], [2, 1, 2, 1], [1, 2, 1, 2], [2, 1, 2, 1]]);
    let mut c = Searcher::new(lost, 3000, &stopped, &table, ucb1, Dice::seeded(11));
    c.play_round();
    assert_eq!(c.tree().len(), 1);
    assert_eq!(c.iterations(), 1);
    assert_eq!(c.best_move(), 0);
}
