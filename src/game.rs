use vstd::prelude::*;

use crate::board::{apply_spec, is_legal_move, count_of, initial_spec, legal_moves_spec, move_view, moves_view, points_view, Board};
use crate::cell::{is_color, opposite_of, AllowedMoves, Cell, EndState, PlayerMove};
use crate::point::Point;

verus! {

/// Neither color has a legal move.
pub open spec fn is_terminal(b: Seq<Cell>) -> bool {
    legal_moves_spec(b, Cell::Black).len() == 0 && legal_moves_spec(b, Cell::White).len() == 0
}

/// The result by disc count: more discs wins, or fewer in anti mode; equal
/// counts tie.
pub open spec fn outcome(b: Seq<Cell>, is_anti: bool) -> EndState {
    let nb = count_of(b, Cell::Black);
    let nw = count_of(b, Cell::White);
    if nb > nw {
        if is_anti {
            EndState::WhiteWon
        } else {
            EndState::BlackWon
        }
    } else if nb < nw {
        if is_anti {
            EndState::BlackWon
        } else {
            EndState::WhiteWon
        }
    } else {
        EndState::Tie
    }
}

/// The state after `color`, with `n_allowed` moves, is to move: the game goes
/// on while either side can move, and is scored by disc count otherwise.
pub open spec fn wincheck_spec(b: Seq<Cell>, n_allowed: int, is_anti: bool, color: Cell) -> EndState {
    if n_allowed > 0 || legal_moves_spec(b, opposite_of(color)).len() > 0 {
        EndState::Unknown
    } else {
        outcome(b, is_anti)
    }
}

/// The state of the game when `color`, whose moves are `allowed_moves`, is
/// to move.
pub fn wincheck(board: &Board, allowed_moves: &AllowedMoves, is_anti: bool, color: Cell) -> (r: EndState)
    requires
        is_color(color),
    ensures
        r == wincheck_spec(board@, allowed_moves@.len() as int, is_anti, color),
{
    if allowed_moves.len() > 0 {
        return EndState::Unknown;
    }
    let maybepassmoves = board.allowed_moves(color.opposite());
    if maybepassmoves.len() > 0 {
        return EndState::Unknown;
    }
    let nblack = board.count(Cell::Black);
    let nwhite = board.count(Cell::White);
    if nblack > nwhite {
        if is_anti {
            EndState::WhiteWon
        } else {
            EndState::BlackWon
        }
    } else if nblack < nwhite {
        if is_anti {
            EndState::BlackWon
        } else {
            EndState::WhiteWon
        }
    } else {
        EndState::Tie
    }
}

/// The state of a match as one player sees it: the board, its own color, the
/// color to move and the scoring mode.
#[derive(Clone, Copy)]
pub struct MatchState {
    pub board: Board,
    pub my_color: Cell,
    pub current_color: Cell,
    pub is_anti: bool,
}

/// What the color to move does next.
#[derive(Debug)]
pub enum Step {
    /// The game is over with this result.
    Finished(EndState),
    /// This player moves, choosing among these moves.
    SelfMove(AllowedMoves),
    /// The opponent moves, choosing among these moves.
    OpponentMove(AllowedMoves),
    /// This player has no move and passes.
    SelfPass,
    /// The opponent has no move and passes.
    OpponentPass,
}

impl MatchState {
    /// Both colors are players.
    pub open spec fn wf(&self) -> bool {
        is_color(self.my_color) && is_color(self.current_color)
    }

    /// The state of the game for the color to move.
    pub open spec fn status_spec(&self) -> EndState {
        wincheck_spec(
            self.board@,
            legal_moves_spec(self.board@, self.current_color).len() as int,
            self.is_anti,
            self.current_color,
        )
    }

    /// A new match from the opening position, black to move.
    pub fn new(black_hole: Option<Point>, my_color: Cell, is_anti: bool) -> (r: Self)
        requires
            is_color(my_color),
        ensures
            r.wf(),
            r.board@ == initial_spec(match black_hole {
                Some(p) => p@,
                None => -1,
            }),
            r.my_color == my_color,
            r.current_color == Cell::Black,
            r.is_anti == is_anti,
    {
        MatchState { board: Board::initial(black_hole), my_color, current_color: Cell::Black, is_anti }
    }

    /// The legal moves of the color to move.
    pub fn allowed_tiles(&self) -> (r: AllowedMoves)
        requires
            self.wf(),
        ensures
            moves_view(r@) == legal_moves_spec(self.board@, self.current_color),
    {
        self.board.allowed_moves(self.current_color)
    }

    /// The state of the game: `Unknown` while either side can move, else the
    /// result by disc count.
    pub fn status(&self) -> (r: EndState)
        requires
            self.wf(),
        ensures
            r == self.status_spec(),
    {
        let allowed = self.allowed_tiles();
        wincheck(&self.board, &allowed, self.is_anti, self.current_color)
    }

    /// What happens next: the result once neither side can move; a move of
    /// the side to move when it has one; a pass when it has none but the
    /// other side has.
    pub fn next_step(&self) -> (r: Step)
        requires
            self.wf(),
        ensures
            ({
                let n = legal_moves_spec(self.board@, self.current_color).len();
                let mine = self.current_color == self.my_color;
                match r {
                    Step::Finished(e) => n == 0 && e == self.status_spec() && e != EndState::Unknown,
                    Step::SelfMove(m) => n > 0 && mine && moves_view(m@) == legal_moves_spec(
                        self.board@,
                        self.current_color,
                    ),
                    Step::OpponentMove(m) => n > 0 && !mine && moves_view(m@) == legal_moves_spec(
                        self.board@,
                        self.current_color,
                    ),
                    Step::SelfPass => n == 0 && mine && self.status_spec() == EndState::Unknown,
                    Step::OpponentPass => n == 0 && !mine && self.status_spec() == EndState::Unknown,
                }
            }),
    {
        let allowed = self.allowed_tiles();
        let win = wincheck(&self.board, &allowed, self.is_anti, self.current_color);
        if win.is_over() {
            Step::Finished(win)
        } else if allowed.len() > 0 {
            if self.current_color == self.my_color {
                Step::SelfMove(allowed)
            } else {
                Step::OpponentMove(allowed)
            }
        } else if self.current_color == self.my_color {
            Step::SelfPass
        } else {
            Step::OpponentPass
        }
    }

    /// Plays `player_move`, one of the legal moves of the color to move, for
    /// that color; the turn does not change.
    pub fn apply_move(&mut self, player_move: &PlayerMove)
        requires
            old(self).wf(),
            is_legal_move(old(self).board@, old(self).current_color, move_view(*player_move)),
        ensures
            final(self).board@ == apply_spec(
                old(self).board@,
                player_move.0@,
                points_view(player_move.1@),
                old(self).current_color,
            ),
            final(self).my_color == old(self).my_color,
            final(self).current_color == old(self).current_color,
            final(self).is_anti == old(self).is_anti,
    {
        let color = self.current_color;
        self.board.apply_move(player_move, color);
    }

    /// Hands the turn to `color`.
    pub fn set_color(&mut self, color: Cell)
        ensures
            final(self).board == old(self).board,
            final(self).my_color == old(self).my_color,
            final(self).current_color == color,
            final(self).is_anti == old(self).is_anti,
    {
        self.current_color = color;
    }

    /// The state after the side to move passes.
    pub open spec fn passed(&self) -> MatchState {
        MatchState { current_color: opposite_of(self.current_color), ..*self }
    }

    /// Plays `player_move`, one of the legal moves of the color to move, for
    /// that color and hands the turn over.
    pub fn play(&mut self, player_move: &PlayerMove)
        requires
            old(self).wf(),
            is_legal_move(old(self).board@, old(self).current_color, move_view(*player_move)),
        ensures
            final(self).wf(),
            final(self).board@ == apply_spec(
                old(self).board@,
                player_move.0@,
                points_view(player_move.1@),
                old(self).current_color,
            ),
            final(self).my_color == old(self).my_color,
            final(self).current_color == opposite_of(old(self).current_color),
            final(self).is_anti == old(self).is_anti,
    {
        self.apply_move(player_move);
        let next = self.current_color.opposite();
        self.set_color(next);
    }

    /// The side to move passes: the board stays and the turn goes over.
    pub fn pass(&mut self)
        requires
            old(self).wf(),
        ensures
            final(self).wf(),
            *final(self) == old(self).passed(),
    {
        let next = self.current_color.opposite();
        self.set_color(next);
    }
}

/// When the side to move has no legal move and the other side has one, the
/// game is not over: `next_step` can only be a pass, and after the pass the
/// board is unchanged and the other side is to move with its moves.
pub proof fn lemma_pass_keeps_game_open(g: MatchState)
    requires
        g.wf(),
        legal_moves_spec(g.board@, g.current_color).len() == 0,
        legal_moves_spec(g.board@, opposite_of(g.current_color)).len() > 0,
    ensures
        g.status_spec() == EndState::Unknown,
        g.passed().wf(),
        g.passed().board == g.board,
        g.passed().current_color == opposite_of(g.current_color),
        g.passed().status_spec() == EndState::Unknown,
        legal_moves_spec(g.passed().board@, g.passed().current_color).len() > 0,
{
}

/// The move of `allowed_moves` whose target is `coord`, if any.
pub fn find_move(allowed_moves: &AllowedMoves, coord: Point) -> (r: Option<PlayerMove>)
    ensures
        r matches Some(m) ==> exists|i: int|
            0 <= i < allowed_moves@.len() && allowed_moves@[i].0@ == coord@ && move_view(m) == move_view(
                #[trigger] allowed_moves@[i],
            ),
        r is None ==> forall|i: int| 0 <= i < allowed_moves@.len() ==> (#[trigger] allowed_moves@[i]).0@ != coord@,
{
    let mut i: usize = 0;
    while i < allowed_moves.len()
        invariant
            i <= allowed_moves@.len(),
            forall|j: int| 0 <= j < i ==> (#[trigger] allowed_moves@[j]).0@ != coord@,
        decreases allowed_moves@.len() - i,
    {
        proof {
            Point::lemma_view_eq(allowed_moves@[i as int].0, coord);
        }
        if allowed_moves[i].0 == coord {
            let m = (allowed_moves[i].0, allowed_moves[i].1.clone());
            proof {
                assert(m.1@ == allowed_moves@[i as int].1@);
            }
            return Some(m);
        }
        i += 1;
    }
    None
}

} // verus!
