//! The commands of the text interface, as far as they work on the board.
//!
//! A command gets its parameters as a list of words. What a command prints,
//! and the thread that a search runs on, are left to the caller.

use crate::board::{direction_of, Board, Move, MOVE_DOWN, MOVE_LEFT, MOVE_RIGHT, MOVE_UP};
use crate::clock::raise;
use crate::fen::{digit_to_exponent, digit_value, fen_error, fen_grid, is_fen, FenError};
use crate::grid::{changes, is_grid, moved, placed};
use crate::line::MoveTable;
use std::sync::atomic::AtomicBool;
use std::sync::Arc;
use vstd::prelude::*;

verus! {

/// Why a command was not carried out.
#[derive(Debug, PartialEq, Eq, Structural, Clone, Copy)]
pub enum CommandError {
    /// A parameter is missing.
    Missing,
    /// A parameter is not of the form that the command takes.
    Malformed,
    /// The position is not the text form of a board.
    BadPosition(FenError),
}

/// The move that a word stands for: `l`, `r`, `u` or `d`.
pub open spec fn move_of_word(word: Seq<char>) -> Option<Move> {
    if word.len() != 1 {
        None
    } else if word[0] == 'l' {
        Some(MOVE_LEFT)
    } else if word[0] == 'r' {
        Some(MOVE_RIGHT)
    } else if word[0] == 'u' {
        Some(MOVE_UP)
    } else if word[0] == 'd' {
        Some(MOVE_DOWN)
    } else {
        None
    }
}

/// The number that a word of one digit of base 16 stands for.
pub open spec fn digit_of_word(word: Seq<char>) -> Option<nat> {
    if word.len() != 1 {
        None
    } else {
        digit_value(word[0])
    }
}

/// The number that a word of one digit of base 16 stands for.
pub fn parse_digit(word: &str) -> (digit: Option<u32>)
    ensures
        match digit {
            Some(v) => digit_of_word(word@) == Some(v as nat) && v <= 15,
            None => digit_of_word(word@) is None,
        },
{
    if word.unicode_len() != 1 {
        None
    } else {
        digit_to_exponent(word.get_char(0))
    }
}

/// The move that a word stands for.
pub fn parse_move(word: &str) -> (mv: Option<Move>)
    ensures
        mv == move_of_word(word@),
{
    if word.unicode_len() != 1 {
        return None;
    }
    let c: char = word.get_char(0);
    if c == 'l' {
        Some(MOVE_LEFT)
    } else if c == 'r' {
        Some(MOVE_RIGHT)
    } else if c == 'u' {
        Some(MOVE_UP)
    } else if c == 'd' {
        Some(MOVE_DOWN)
    } else {
        None
    }
}

/// Starts a new game: every cell of the board is empty.
pub fn command_newgame(board: &mut Board)
    ensures
        is_grid(final(board)@),
        forall|r: int, c: int| 0 <= r < 4 && 0 <= c < 4 ==> #[trigger] final(board)@[r][c] == 0,
{
    *board = Board::new([[0, 0, 0, 0], [0, 0, 0, 0], [0, 0, 0, 0], [0, 0, 0, 0]]);
}

/// Sets the board to the position that the first parameter gives in text
/// form. The board stays as it is if the command fails.
pub fn command_position(params: &[&str], board: &mut Board) -> (done: Result<(), CommandError>)
    ensures
        match done {
            Ok(_) => params@.len() > 0 && is_fen(params@[0]@) && final(board)@ == fen_grid(
                params@[0]@,
            ),
            Err(e) => final(board)@ == old(board)@ && if params@.len() == 0 {
                e == CommandError::Missing
            } else {
                fen_error(params@[0]@) is Some && e == CommandError::BadPosition(
                    fen_error(params@[0]@).unwrap(),
                )
            },
        },
{
    if params.len() == 0 {
        return Err(CommandError::Missing);
    }
    match Board::from_fen(params[0]) {
        Ok(parsed) => {
            *board = parsed;
            Ok(())
        },
        Err(e) => Err(CommandError::BadPosition(e)),
    }
}

/// Makes the move that the first parameter names. Returns whether the
/// board changed. The board stays as it is if the command fails.
pub fn command_move(params: &[&str], board: &mut Board, table: &MoveTable) -> (done: Result<
    bool,
    CommandError,
>)
    ensures
        match done {
            Ok(legal) => params@.len() > 0 && match move_of_word(params@[0]@) {
                Some(mv) => final(board)@ == moved(old(board)@, direction_of(mv)) && legal
                    == changes(old(board)@, direction_of(mv)),
                None => false,
            },
            Err(e) => final(board)@ == old(board)@ && if params@.len() == 0 {
                e == CommandError::Missing
            } else {
                move_of_word(params@[0]@) is None && e == CommandError::Malformed
            },
        },
{
    if params.len() == 0 {
        return Err(CommandError::Missing);
    }
    match parse_move(params[0]) {
        Some(mv) => Ok(board.apply_move(mv, table)),
        None => Err(CommandError::Malformed),
    }
}

/// Puts a tile on the board: the first parameter is the cell, counted by
/// rows, the second the exponent, each one digit of base 16. Returns
/// whether the cell was empty; the board stays as it is if it was not, or if
/// the command fails.
pub fn command_add(params: &[&str], board: &mut Board) -> (done: Result<bool, CommandError>)
    ensures
        match done {
            Ok(added) => {
                &&& params@.len() >= 2
                &&& digit_of_word(params@[0]@) is Some
                &&& digit_of_word(params@[1]@) is Some
                &&& ({
                    let sq = digit_of_word(params@[0]@).unwrap() as int;
                    let n = digit_of_word(params@[1]@).unwrap();
                    &&& added == (old(board)@[sq / 4][sq % 4] == 0)
                    &&& final(board)@ == if added {
                        placed(old(board)@, sq / 4, sq % 4, n)
                    } else {
                        old(board)@
                    }
                })
            },
            Err(e) => final(board)@ == old(board)@ && if params@.len() < 2 {
                e == CommandError::Missing
            } else {
                (digit_of_word(params@[0]@) is None || digit_of_word(params@[1]@) is None) && e
                    == CommandError::Malformed
            },
        },
{
    if params.len() < 2 {
        return Err(CommandError::Missing);
    }
    let sq: u32 = match parse_digit(params[0]) {
        Some(v) => v,
        None => {
            return Err(CommandError::Malformed);
        },
    };
    let n: u32 = match parse_digit(params[1]) {
        Some(v) => v,
        None => {
            return Err(CommandError::Malformed);
        },
    };
    Ok(board.add_tile(sq, n))
}

/// The number that the first `n` characters of a text give, read as digits
/// of base 10.
pub open spec fn decimal_upto(text: Seq<char>, n: nat) -> nat
    decreases n,
{
    if n == 0 {
        0
    } else {
        (decimal_upto(text, (n - 1) as nat) * 10 + (text[n - 1] as nat - '0' as nat)) as nat
    }
}

/// The text is one digit of base 10 or more.
pub open spec fn is_decimal(text: Seq<char>) -> bool {
    text.len() > 0 && forall|i: int| 0 <= i < text.len() ==> '0' <= #[trigger] text[i] <= '9'
}

/// The number that a word stands for: digits of base 10 after at most one
/// `+`, if the number fits 64 bits.
pub open spec fn number_of_word(word: Seq<char>) -> Option<u64> {
    let digits = if word.len() > 0 && word[0] == '+' {
        word.skip(1)
    } else {
        word
    };
    if is_decimal(digits) && decimal_upto(digits, digits.len()) <= u64::MAX {
        Some(decimal_upto(digits, digits.len()) as u64)
    } else {
        None
    }
}

/// The word is `time`.
pub open spec fn is_time_word(word: Seq<char>) -> bool {
    word == seq!['t', 'i', 'm', 'e']
}

/// The time that the parameters from place `from` on give a search, which
/// has `current` so far: every `time` takes the word behind it as the
/// number of milliseconds, and the last one counts.
pub open spec fn time_from(params: Seq<&str>, from: int, current: u64) -> Result<u64, CommandError>
    decreases params.len() - from,
{
    if from < 0 || from >= params.len() {
        Ok(current)
    } else if !is_time_word(params[from]@) {
        time_from(params, from + 1, current)
    } else if from + 1 >= params.len() {
        Err(CommandError::Missing)
    } else {
        match number_of_word(params[from + 1]@) {
            Some(millis) => time_from(params, from + 2, millis),
            None => Err(CommandError::Malformed),
        }
    }
}

/// A longer part of a text of digits gives no smaller number.
proof fn lemma_decimal_grows(text: Seq<char>, n: nat, m: nat)
    requires
        n <= m <= text.len(),
        forall|i: int| 0 <= i < text.len() ==> '0' <= #[trigger] text[i] <= '9',
    ensures
        decimal_upto(text, n) <= decimal_upto(text, m),
    decreases m - n,
{
    if n < m {
        lemma_decimal_grows(text, n, (m - 1) as nat);
    }
}

/// The number that a word stands for.
pub fn parse_number(word: &str) -> (number: Option<u64>)
    ensures
        number == number_of_word(word@),
{
    let n: usize = word.unicode_len();
    let start: usize = if n > 0 && word.get_char(0) == '+' {
        1
    } else {
        0
    };
    let ghost digits = word@.skip(start as int);
    proof {
        assert(word@.skip(0) =~= word@);
    }
    if start == n {
        return None;
    }
    let mut value: u64 = 0;
    let mut i: usize = start;
    while i < n
        invariant
            start <= i <= n,
            n == word@.len(),
            digits == word@.skip(start as int),
            digits == if word@.len() > 0 && word@[0] == '+' {
                word@.skip(1)
            } else {
                word@
            },
            value == decimal_upto(digits, (i - start) as nat),
            forall|j: int| 0 <= j < i - start ==> '0' <= #[trigger] digits[j] <= '9',
        decreases n - i,
    {
        let c: char = word.get_char(i);
        assert(digits[i - start] == c);
        if c < '0' || c > '9' {
            assert(!is_decimal(digits));
            return None;
        }
        let digit: u64 = (c as u32 - '0' as u32) as u64;
        if value > (u64::MAX - digit) / 10 {
            proof {
                if is_decimal(digits) {
                    lemma_decimal_grows(digits, (i - start + 1) as nat, digits.len());
                }
            }
            return None;
        }
        value = value * 10 + digit;
        i = i + 1;
    }
    assert(is_decimal(digits));
    Some(value)
}

/// Whether the word is `time`.
pub fn is_time(word: &str) -> (yes: bool)
    ensures
        yes == is_time_word(word@),
{
    if word.unicode_len() != 4 {
        return false;
    }
    let yes = word.get_char(0) == 't' && word.get_char(1) == 'i' && word.get_char(2) == 'm'
        && word.get_char(3) == 'e';
    proof {
        if yes {
            assert(word@ =~= seq!['t', 'i', 'm', 'e']);
        }
    }
    yes
}

/// The milliseconds that the parameters of a go command give the search:
/// as good as no limit, unless a `time` is among them.
pub fn move_time(params: &[&str]) -> (time: Result<u64, CommandError>)
    ensures
        time == time_from(params@, 0, u64::MAX),
{
    let mut current: u64 = u64::MAX;
    let mut i: usize = 0;
    while i < params.len()
        invariant
            i <= params@.len(),
            time_from(params@, 0, u64::MAX) == time_from(params@, i as int, current),
        decreases params@.len() - i,
    {
        if is_time(params[i]) {
            if i + 1 >= params.len() {
                return Err(CommandError::Missing);
            }
            match parse_number(params[i + 1]) {
                Some(millis) => {
                    current = millis;
                },
                None => {
                    return Err(CommandError::Malformed);
                },
            }
            i = i + 2;
        } else {
            i = i + 1;
        }
    }
    Ok(current)
}

/// Asks the search to stop: sets the flag that the search looks at after
/// every round.
pub fn command_stop(stopped: Arc<AtomicBool>) {
    raise(&stopped);
}

} // verus!
