//! The compact text form of a board.
//!
//! A board is written as its four rows, top row first, with `/` between
//! them. A row is four characters, and each is a digit of base 16 (`0` to
//! `9`, `a` to `f`) that gives the exponent of its cell.

use crate::board::{grid_of, Board};
use crate::grid::{is_grid, Grid};
use vstd::prelude::*;
use vstd::string::StringExecFns;

verus! {

/// Why a text is not the text form of a board.
#[derive(Debug, PartialEq, Eq, Structural, Clone, Copy)]
pub enum FenError {
    /// A character is neither a digit of base 16 nor `/`.
    BadCharacter,
    /// The text does not have four rows.
    BadRowCount,
    /// A row does not have four cells.
    BadRowLength,
}

/// The exponent that a digit stands for.
pub open spec fn digit_value(c: char) -> Option<nat> {
    if '0' <= c <= '9' {
        Some((c as nat - '0' as nat) as nat)
    } else if 'a' <= c <= 'f' {
        Some((c as nat - 'a' as nat + 10) as nat)
    } else {
        None
    }
}

/// The digit that stands for an exponent of at most 15.
pub open spec fn digit_of(e: nat) -> char {
    if e < 10 {
        ('0' as u8 + e) as char
    } else {
        ('a' as u8 + e - 10) as char
    }
}

/// How many of the first `n` characters are `/`.
pub open spec fn separators_upto(s: Seq<char>, n: nat) -> nat
    decreases n,
{
    if n == 0 {
        0
    } else {
        separators_upto(s, (n - 1) as nat) + if s[n - 1] == '/' {
            1nat
        } else {
            0nat
        }
    }
}

/// The text is the text form of a board: four rows of four digits.
pub open spec fn is_fen(s: Seq<char>) -> bool {
    &&& s.len() == 19
    &&& forall|i: int|
        0 <= i < 19 ==> if i % 5 == 4 {
            #[trigger] s[i] == '/'
        } else {
            digit_value(s[i]) is Some
        }
}

/// What is wrong with a text, if anything: first a character that cannot
/// stand in any text form, then the number of rows, then their lengths.
pub open spec fn fen_error(s: Seq<char>) -> Option<FenError> {
    if exists|i: int| 0 <= i < s.len() && #[trigger] s[i] != '/' && digit_value(s[i]) is None {
        Some(FenError::BadCharacter)
    } else if separators_upto(s, s.len()) != 3 {
        Some(FenError::BadRowCount)
    } else if !is_fen(s) {
        Some(FenError::BadRowLength)
    } else {
        None
    }
}

/// The grid that a text form holds.
pub open spec fn fen_grid(s: Seq<char>) -> Grid {
    Seq::new(4, |r: int| Seq::new(4, |c: int| digit_value(s[5 * r + c]).unwrap()))
}

/// The text form of a grid whose exponents are at most 15.
pub open spec fn fen_of(g: Grid) -> Seq<char> {
    Seq::new(
        19,
        |i: int|
            if i % 5 == 4 {
                '/'
            } else {
                digit_of(g[i / 5][i % 5])
            },
    )
}

/// Every exponent of the grid has a digit.
pub open spec fn has_fen(g: Grid) -> bool {
    forall|r: int, c: int| 0 <= r < 4 && 0 <= c < 4 ==> #[trigger] g[r][c] <= 15
}

/// A digit of an exponent stands for that exponent.
pub proof fn lemma_digit(e: nat)
    requires
        e <= 15,
    ensures
        digit_value(digit_of(e)) == Some(e),
        digit_of(e) != '/',
{
}

/// Writing a grid and reading the text gives the grid back.
pub proof fn lemma_fen_round_trip(g: Grid)
    requires
        is_grid(g),
        has_fen(g),
    ensures
        is_fen(fen_of(g)),
        fen_error(fen_of(g)) is None,
        fen_grid(fen_of(g)) == g,
{
    let s = fen_of(g);
    assert forall|i: int| 0 <= i < 19 implies if i % 5 == 4 {
        #[trigger] s[i] == '/'
    } else {
        digit_value(s[i]) is Some
    } by {
        if i % 5 != 4 {
            lemma_digit(g[i / 5][i % 5]);
        }
    }
    assert forall|r: int, c: int| 0 <= r < 4 && 0 <= c < 4 implies #[trigger] fen_grid(s)[r][c]
        == g[r][c] by {
        let i = 5 * r + c;
        assert(i / 5 == r && i % 5 == c);
        lemma_digit(g[r][c]);
    }
    assert(fen_grid(s) =~~= g);
    lemma_separators(s);
}

/// Reading a text form and writing the grid gives the text back.
pub proof fn lemma_fen_read_and_written(s: Seq<char>)
    requires
        is_fen(s),
    ensures
        is_grid(fen_grid(s)),
        has_fen(fen_grid(s)),
        fen_of(fen_grid(s)) == s,
{
    let g = fen_grid(s);
    assert forall|r: int, c: int| 0 <= r < 4 && 0 <= c < 4 implies #[trigger] g[r][c] <= 15 by {
        assert(digit_value(s[5 * r + c]) is Some);
    }
    assert forall|i: int| 0 <= i < 19 implies #[trigger] fen_of(g)[i] == s[i] by {
        if i % 5 != 4 {
            assert(5 * (i / 5) + i % 5 == i);
            assert(digit_value(s[i]) is Some);
        }
    }
    assert(fen_of(g) =~= s);
}

/// A text form has three separators, and nothing is wrong with it.
pub proof fn lemma_separators(s: Seq<char>)
    requires
        is_fen(s),
    ensures
        separators_upto(s, 19) == 3,
        fen_error(s) is None,
{
    reveal_with_fuel(separators_upto, 20);
    assert(s[4] == '/' && s[9] == '/' && s[14] == '/');
    assert(forall|i: int| 0 <= i < 19 && i % 5 != 4 ==> digit_value(#[trigger] s[i]) is Some);
}

/// The exponent that a digit stands for, if the character is a digit.
pub fn digit_to_exponent(c: char) -> (e: Option<u32>)
    ensures
        match e {
            Some(v) => digit_value(c) == Some(v as nat),
            None => digit_value(c) is None,
        },
{
    if c >= '0' && c <= '9' {
        Some(c as u32 - '0' as u32)
    } else if c >= 'a' && c <= 'f' {
        Some(c as u32 - 'a' as u32 + 10)
    } else {
        None
    }
}

/// The digit of an exponent of at most 15, as a text of one character.
fn digit_text(e: u32) -> (text: &'static str)
    requires
        e <= 15,
    ensures
        text@ == seq![digit_of(e as nat)],
{
    proof {
        reveal_strlit("0");
        reveal_strlit("1");
        reveal_strlit("2");
        reveal_strlit("3");
        reveal_strlit("4");
        reveal_strlit("5");
        reveal_strlit("6");
        reveal_strlit("7");
        reveal_strlit("8");
        reveal_strlit("9");
        reveal_strlit("a");
        reveal_strlit("b");
        reveal_strlit("c");
        reveal_strlit("d");
        reveal_strlit("e");
        reveal_strlit("f");
    }
    let text: &'static str = match e {
        0 => "0",
        1 => "1",
        2 => "2",
        3 => "3",
        4 => "4",
        5 => "5",
        6 => "6",
        7 => "7",
        8 => "8",
        9 => "9",
        10 => "a",
        11 => "b",
        12 => "c",
        13 => "d",
        14 => "e",
        _ => "f",
    };
    assert(text@ =~= seq![digit_of(e as nat)]);
    text
}

impl Board {
    /// Reads a board from its text form. A text that is not the text form
    /// of a board is refused, and the error says what is wrong with it.
    pub fn from_fen(fen: &str) -> (parsed: Result<Board, FenError>)
        ensures
            parsed is Ok <==> is_fen(fen@),
            match parsed {
                Ok(board) => board@ == fen_grid(fen@) && is_grid(board@),
                Err(e) => fen_error(fen@) == Some(e),
            },
    {
        let n: usize = fen.unicode_len();
        let mut separators: usize = 0;
        let mut i: usize = 0;
        while i < n
            invariant
                i <= n,
                n == fen@.len(),
                separators == separators_upto(fen@, i as nat),
                separators <= i,
                forall|j: int|
                    0 <= j < i ==> #[trigger] fen@[j] == '/' || digit_value(fen@[j]) is Some,
            decreases n - i,
        {
            let c: char = fen.get_char(i);
            if c == '/' {
                separators = separators + 1;
            } else if digit_to_exponent(c).is_none() {
                return Err(FenError::BadCharacter);
            }
            i = i + 1;
        }
        if separators != 3 {
            proof {
                if is_fen(fen@) {
                    lemma_separators(fen@);
                }
            }
            return Err(FenError::BadRowCount);
        }
        if n != 19 {
            return Err(FenError::BadRowLength);
        }
        let mut squares: [[u32; 4]; 4] = [[0, 0, 0, 0], [0, 0, 0, 0], [0, 0, 0, 0], [0, 0, 0, 0]];
        let mut i: usize = 0;
        while i < 19
            invariant
                i <= 19,
                fen@.len() == 19,
                fen_error(fen@) is None || fen_error(fen@) == Some(FenError::BadRowLength),
                forall|j: int|
                    0 <= j < i ==> if j % 5 == 4 {
                        #[trigger] fen@[j] == '/'
                    } else {
                        digit_value(fen@[j]) == Some(squares[j / 5][j % 5] as nat)
                    },
                forall|r: int, c: int| 0 <= r < 4 && 0 <= c < 4 ==> #[trigger] squares[r][c] <= 15,
            decreases 19 - i,
        {
            let c: char = fen.get_char(i);
            if i % 5 == 4 {
                if c != '/' {
                    return Err(FenError::BadRowLength);
                }
            } else {
                match digit_to_exponent(c) {
                    Some(v) => {
                        squares[i / 5][i % 5] = v;
                    },
                    None => {
                        return Err(FenError::BadRowLength);
                    },
                }
            }
            i = i + 1;
        }
        let board = Board::new(squares);
        proof {
            assert(is_fen(fen@));
            lemma_separators(fen@);
            assert forall|r: int, c: int| 0 <= r < 4 && 0 <= c < 4 implies #[trigger] fen_grid(
                fen@,
            )[r][c] == squares[r][c] as nat by {
                let j = 5 * r + c;
                assert(j / 5 == r && j % 5 == c);
            }
            assert(board@ =~~= fen_grid(fen@));
        }
        Ok(board)
    }

    /// Writes the board in its text form, if every exponent has a digit,
    /// that is if none is above 15.
    pub fn to_fen(&self) -> (written: Option<String>)
        ensures
            match written {
                Some(text) => has_fen(self@) && text@ == fen_of(self@),
                None => !has_fen(self@),
            },
    {
        let squares: [[u32; 4]; 4] = self.squares();
        let mut text = String::new();
        let mut i: usize = 0;
        while i < 19
            invariant
                i <= 19,
                grid_of(squares) == self@,
                text@.len() == i,
                forall|j: int| 0 <= j < i ==> #[trigger] text@[j] == fen_of(self@)[j],
                forall|j: int| 0 <= j < i && j % 5 != 4 ==> #[trigger] squares[j / 5][j % 5] <= 15,
            decreases 19 - i,
        {
            if i % 5 == 4 {
                proof {
                    reveal_strlit("/");
                }
                text.append("/");
            } else {
                let e: u32 = squares[i / 5][i % 5];
                assert(self@[i as int / 5][i as int % 5] == e as nat);
                if e > 15 {
                    return None;
                }
                text.append(digit_text(e));
            }
            i = i + 1;
        }
        proof {
            assert forall|r: int, c: int| 0 <= r < 4 && 0 <= c < 4 implies #[trigger] self@[r][c]
                <= 15 by {
                let j = 5 * r + c;
                assert(j / 5 == r && j % 5 == c);
                assert(squares[j / 5][j % 5] <= 15);
            }
            assert(text@ =~= fen_of(self@));
        }
        Some(text)
    }
}

} // verus!
