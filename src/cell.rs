use vstd::prelude::*;

use crate::point::{ab_of, parse_ab, Point};
use vstd::string::*;

verus! {

/// Row-major index of a board cell, `0..64`.
pub type TileIdx = i8;

/// A move: the target cell and the opponent discs that it flips.
pub type PlayerMove = (Point, Vec<Point>);

/// Every move available to one color on one board.
pub type AllowedMoves = Vec<PlayerMove>;

/// Heuristic value of a position.
pub type Score = i32;

/// An alpha-beta search window.
pub type AlphaBeta = (Score, Score);

/// The content of one board cell.
#[derive(Clone, Copy, Debug, PartialEq, Eq, Structural)]
pub enum Cell {
    Empty,
    Black,
    White,
    BlackHole,
}

/// The two colors that move.
pub open spec fn is_color(c: Cell) -> bool {
    c == Cell::Black || c == Cell::White
}

/// The other player's color.
pub open spec fn opposite_of(c: Cell) -> Cell {
    match c {
        Cell::White => Cell::Black,
        Cell::Black => Cell::White,
        other => other,
    }
}

impl Cell {
    /// The other player's color; only `Black` and `White` have one.
    pub fn opposite(&self) -> (r: Cell)
        requires
            is_color(*self),
        ensures
            r == opposite_of(*self),
            is_color(r),
    {
        match self {
            Cell::White => Cell::Black,
            _ => Cell::White,
        }
    }

    /// Whether the cell holds a disc of either color.
    pub fn is_disc(&self) -> (r: bool)
        ensures
            r == is_color(*self),
    {
        match self {
            Cell::White | Cell::Black => true,
            _ => false,
        }
    }

    /// Whether the cell is free.
    pub fn is_empty(&self) -> (r: bool)
        ensures
            r == (*self == Cell::Empty),
    {
        match self {
            Cell::Empty => true,
            _ => false,
        }
    }
}

/// The outcome of a game.
#[derive(Clone, Copy, Debug, PartialEq, Eq, Structural)]
pub enum EndState {
    Unknown,
    WhiteWon,
    BlackWon,
    Tie,
}

impl EndState {
    /// Whether the game has ended.
    pub fn is_over(&self) -> (r: bool)
        ensures
            r == (*self != EndState::Unknown),
    {
        match self {
            EndState::Unknown => false,
            _ => true,
        }
    }

    /// Whether this outcome is a win for `cell`.
    pub fn won(&self, cell: Cell) -> (r: bool)
        ensures
            r == won_by(*self, cell),
    {
        match self {
            EndState::WhiteWon => cell == Cell::White,
            EndState::BlackWon => cell == Cell::Black,
            _ => false,
        }
    }
}

/// `e` is a win for `c`.
pub open spec fn won_by(e: EndState, c: Cell) -> bool {
    (e == EndState::WhiteWon && c == Cell::White) || (e == EndState::BlackWon && c == Cell::Black)
}

/// One token of the move protocol.
#[derive(Clone, Copy, Debug, PartialEq, Eq, Structural)]
pub enum CLIMove {
    Coord(Point),
    Color(Cell),
    Pass,
}

impl CLIMove {
    /// The coordinate that this token carries.
    pub fn coord(self) -> (r: Point)
        requires
            self is Coord,
        ensures
            self == CLIMove::Coord(r),
    {
        match self {
            CLIMove::Coord(p) => p,
            _ => Point::from_idx(0),
        }
    }

    /// The color that this token carries.
    pub fn color(self) -> (r: Cell)
        requires
            self is Color,
        ensures
            self == CLIMove::Color(r),
    {
        match self {
            CLIMove::Color(c) => c,
            _ => Cell::Empty,
        }
    }
}

/// The larger of two scores.
pub fn max_of(s1: Score, s2: Score) -> (r: Score)
    ensures
        r == if s1 > s2 { s1 } else { s2 },
{
    if s1 > s2 {
        s1
    } else {
        s2
    }
}

/// The smaller of two scores.
pub fn min_of(s1: Score, s2: Score) -> (r: Score)
    ensures
        r == if s1 > s2 { s2 } else { s1 },
{
    if s1 > s2 {
        s2
    } else {
        s1
    }
}

/// The move channel's token grammar: one line reading `pass`, `black`,
/// `white` or a coordinate such as `D3`.
pub struct Chan {}

/// Whether `s` spells exactly `lit`.
fn str_is(s: &str, lit: &str) -> (r: bool)
    ensures
        r == (s@ == lit@),
{
    let n = s.unicode_len();
    if n != lit.unicode_len() {
        return false;
    }
    let mut i: usize = 0;
    while i < n
        invariant
            n == s@.len(),
            n == lit@.len(),
            i <= n,
            s@.take(i as int) == lit@.take(i as int),
        decreases n - i,
    {
        if s.get_char(i) != lit.get_char(i) {
            proof {
                assert(s@[i as int] != lit@[i as int]);
            }
            return false;
        }
        proof {
            assert(s@.take(i + 1) =~= s@.take(i as int).push(s@[i as int]));
            assert(lit@.take(i + 1) =~= lit@.take(i as int).push(lit@[i as int]));
        }
        i += 1;
    }
    proof {
        assert(s@ =~= s@.take(n as int));
        assert(lit@ =~= lit@.take(n as int));
    }
    true
}

/// The three word tokens of the channel.
pub open spec fn word_token(s: Seq<char>) -> Option<CLIMove> {
    if s == seq!['p', 'a', 's', 's'] {
        Some(CLIMove::Pass)
    } else if s == seq!['b', 'l', 'a', 'c', 'k'] {
        Some(CLIMove::Color(Cell::Black))
    } else if s == seq!['w', 'h', 'i', 't', 'e'] {
        Some(CLIMove::Color(Cell::White))
    } else {
        None
    }
}

impl Chan {
    /// Reads one trimmed, non-empty line of the channel as a token:
    /// `pass`, a color, or a coordinate.
    pub fn parse(line: &str) -> (r: Option<CLIMove>)
        ensures
            word_token(line@) is Some ==> r == word_token(line@),
            word_token(line@) is None ==> match parse_ab(line@) {
                Some(i) => r matches Some(CLIMove::Coord(p)) && p@ == i,
                None => r is None,
            },
    {
        proof {
            reveal_strlit("pass");
            reveal_strlit("black");
            reveal_strlit("white");
            assert("pass"@ =~= seq!['p', 'a', 's', 's']);
            assert("black"@ =~= seq!['b', 'l', 'a', 'c', 'k']);
            assert("white"@ =~= seq!['w', 'h', 'i', 't', 'e']);
        }
        if str_is(line, "pass") {
            Some(CLIMove::Pass)
        } else if str_is(line, "black") {
            Some(CLIMove::Color(Cell::Black))
        } else if str_is(line, "white") {
            Some(CLIMove::Color(Cell::White))
        } else {
            match Point::from_ab(line) {
                Some(p) => Some(CLIMove::Coord(p)),
                None => None,
            }
        }
    }

    /// The line that sends `m`: `pass`, or the coordinate in algebraic
    /// notation; a color is never sent.
    pub fn format(m: &CLIMove) -> (r: Option<String>)
        ensures
            match *m {
                CLIMove::Pass => r matches Some(s) && s@ == seq!['p', 'a', 's', 's'],
                CLIMove::Coord(p) => r matches Some(s) && s@ == ab_of(p@),
                CLIMove::Color(_) => r is None,
            },
    {
        proof {
            reveal_strlit("pass");
            assert("pass"@ =~= seq!['p', 'a', 's', 's']);
        }
        match m {
            CLIMove::Pass => Some(String::from_str("pass")),
            CLIMove::Coord(p) => Some(p.to_ab()),
            CLIMove::Color(_) => None,
        }
    }
}

} // verus!
