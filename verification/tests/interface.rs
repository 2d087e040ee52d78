use mcts2048::board::Board;
use mcts2048::clock::{budget_spent, is_raised, raise};
use mcts2048::fen::FenError;
use mcts2048::interface::{
    command_add, command_move, command_newgame, command_position, command_stop, is_time,
    move_time, parse_digit, parse_move, parse_number, CommandError,
};
use mcts2048::line::build_move_lut;
use std::sync::atomic::{AtomicBool, Ordering};
use std::sync::Arc;

#[test]
fn newgame_empties_the_board() {
    let mut board = Board::from_fen("258a/3005/ab10/0000").unwrap();
    command_newgame(&mut board);
    assert_eq!(board.squares(), [[0; 4]; 4]);
}

#[test]
fn position_sets_the_board() {
    let mut board = Board::new([[0; 4]; 4]);
    assert_eq!(command_position(&["258a/3005/ab10/0000"], &mut board), Ok(()));
    assert_eq!(board.squares(), [[2, 5, 8, 10], [3, 0, 0, 5], [10, 11, 1, 0], [0, 0, 0, 0]]);
    assert_eq!(command_position(&[], &mut board), Err(CommandError::Missing));
    assert_eq!(
        command_position(&["258a/3005/ab10/000x"], &mut board),
        Err(CommandError::BadPosition(FenError::BadCharacter))
    );
    assert_eq!(
        command_position(&["258a/3005/ab10"], &mut board),
        Err(CommandError::BadPosition(FenError::BadRowCount))
    );
    assert_eq!(
        command_position(&["258a/3005/ab1/00000"], &mut board),
        Err(CommandError::BadPosition(FenError::BadRowLength))
    );
    assert_eq!(board.squares(), [[2, 5, 8, 10], [3, 0, 0, 5], [10, 11, 1, 0], [0, 0, 0, 0]]);
}

#[test]
fn move_takes_a_letter() {
    let table = build_move_lut();
    let start = Board::new([[0, 0, 0, 1], [0, 2, 0, 2], [2, 2, 2, 2], [3, 1, 1, 1]]);
    let mut board = start;
    assert_eq!(command_move(&["l"], &mut board, &table), Ok(true));
    assert_eq!(board.squares(), [[1, 0, 0, 0], [3, 0, 0, 0], [3, 3, 0, 0], [3, 2, 1, 0]]);
    let mut board = start;
    assert_eq!(command_move(&["r"], &mut board, &table), Ok(true));
    assert_eq!(board.squares(), [[0, 0, 0, 1], [0, 0, 0, 3], [0, 0, 3, 3], [0, 3, 1, 2]]);
    let mut board = start;
    assert_eq!(command_move(&["u"], &mut board, &table), Ok(true));
    assert_eq!(board.squares(), [[2, 3, 2, 1], [3, 1, 1, 3], [0, 0, 0, 1], [0, 0, 0, 0]]);
    let mut board = start;
    assert_eq!(command_move(&["d"], &mut board, &table), Ok(true));
    assert_eq!(board.squares(), [[0, 0, 0, 0], [0, 0, 0, 1], [2, 3, 2, 3], [3, 1, 1, 1]]);
    assert_eq!(command_move(&["d"], &mut board, &table), Ok(false));
    let mut board = start;
    assert_eq!(command_move(&["x"], &mut board, &table), Err(CommandError::Malformed));
    assert_eq!(command_move(&["left"], &mut board, &table), Err(CommandError::Malformed));
    assert_eq!(command_move(&[], &mut board, &table), Err(CommandError::Missing));
    assert_eq!(board.squares(), start.squares());
    let mut empty = Board::new([[0; 4]; 4]);
    assert_eq!(command_move(&["l"], &mut empty, &table), Ok(false));
}

#[test]
fn add_takes_two_digits() {
    let mut board = Board::new([[0; 4]; 4]);
    assert_eq!(command_add(&["c", "3"], &mut board), Ok(true));
    assert_eq!(board.squares(), [[0, 0, 0, 0], [0, 0, 0, 0], [0, 0, 0, 0], [3, 0, 0, 0]]);
    assert_eq!(command_add(&["c", "4"], &mut board), Ok(false));
    assert_eq!(command_add(&["f", "f"], &mut board), Ok(true));
    assert_eq!(command_add(&["0", "1"], &mut board), Ok(true));
    assert_eq!(board.squares(), [[1, 0, 0, 0], [0, 0, 0, 0], [0, 0, 0, 0], [3, 0, 0, 15]]);
    assert_eq!(command_add(&["5"], &mut board), Err(CommandError::Missing));
    assert_eq!(command_add(&[], &mut board), Err(CommandError::Missing));
    assert_eq!(command_add(&["g", "1"], &mut board), Err(CommandError::Malformed));
    assert_eq!(command_add(&["1", "10"], &mut board), Err(CommandError::Malformed));
    assert_eq!(command_add(&["1", "A"], &mut board), Err(CommandError::Malformed));
    assert_eq!(board.squares(), [[1, 0, 0, 0], [0, 0, 0, 0], [0, 0, 0, 0], [3, 0, 0, 15]]);
}

#[test]
fn stop_raises_the_flag() {
    let stopped = Arc::new(AtomicBool::new(false));
    assert!(!is_raised(&stopped));
    command_stop(Arc::clone(&stopped));
    assert!(stopped.load(Ordering::Relaxed));
    assert!(is_raised(&stopped));
    let other = AtomicBool::new(false);
    raise(&other);
    assert!(is_raised(&other));
}

#[test]
fn budget_is_spent_when_stopped_or_late() {
    assert!(!budget_spent(0, 1, false));
    assert!(budget_spent(1, 1, false));
    assert!(budget_spent(2, 1, false));
    assert!(budget_spent(0, 1, true));
    assert!(budget_spent(0, 0, false));
    assert!(!budget_spent(u64::MAX as u128 - 1, u64::MAX, false));
    assert!(budget_spent(u64::MAX as u128 + 5, u64::MAX, false));
}

#[test]
fn words() {
    assert_eq!(parse_digit("0"), Some(0));
    assert_eq!(parse_digit("9"), Some(9));
    assert_eq!(parse_digit("a"), Some(10));
    assert_eq!(parse_digit("f"), Some(15));
    assert_eq!(parse_digit("g"), None);
    assert_eq!(parse_digit("F"), None);
    assert_eq!(parse_digit(""), None);
    assert_eq!(parse_digit("12"), None);
    assert_eq!(parse_move("l"), Some(1));
    assert_eq!(parse_move("r"), Some(2));
    assert_eq!(parse_move("u"), Some(4));
    assert_eq!(parse_move("d"), Some(8));
    assert_eq!(parse_move("k"), None);
    assert_eq!(parse_move(""), None);
    assert!(is_time("time"));
    assert!(!is_time("tim"));
    assert!(!is_time("timer"));
    assert!(!is_time("tame"));
}

#[test]
fn numbers() {
    assert_eq!(parse_number("0"), Some(0));
    assert_eq!(parse_number("007"), Some(7));
    assert_eq!(parse_number("3000"), Some(3000));
    assert_eq!(parse_number("+15"), Some(15));
    assert_eq!(parse_number("18446744073709551615"), Some(u64::MAX));
    assert_eq!(parse_number("18446744073709551616"), None);
    assert_eq!(parse_number("99999999999999999999"), None);
    assert_eq!(parse_number(""), None);
    assert_eq!(parse_number("+"), None);
    assert_eq!(parse_number("-1"), None);
    assert_eq!(parse_number("1 "), None);
    assert_eq!(parse_number("1e3"), None);
    assert_eq!(parse_number("++1"), None);
    let texts = [
        "0",
        "007",
        "+15",
        "18446744073709551615",
        "18446744073709551616",
        "",
        "+",
        "-1",
        "12a",
    ];
    for text in texts {
        assert_eq!(parse_number(text), text.parse::<u64>().ok());
    }
}

#[test]
fn go_parameters_give_the_time() {
    assert_eq!(move_time(&[]), Ok(u64::MAX));
    assert_eq!(move_time(&["depth", "3"]), Ok(u64::MAX));
    assert_eq!(move_time(&["time", "3000"]), Ok(3000));
    assert_eq!(move_time(&["x", "time", "5", "y"]), Ok(5));
    assert_eq!(move_time(&["time", "5", "time", "7"]), Ok(7));
    assert_eq!(move_time(&["time"]), Err(CommandError::Missing));
    assert_eq!(move_time(&["time", "soon"]), Err(CommandError::Malformed));
    assert_eq!(move_time(&["time", "time"]), Err(CommandError::Malformed));
    assert_eq!(move_time(&["time", "5", "time"]), Err(CommandError::Missing));
}
