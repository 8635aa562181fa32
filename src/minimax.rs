use vstd::prelude::*;

use crate::board::{apply_spec, initial_spec, legal_moves_spec, move_view, moves_view, Board};
use crate::cell::{is_color, max_of, opposite_of, Cell, PlayerMove, Score};
use crate::eval::{sev3, sev3_bound, sev3_spec};
use crate::game::MatchState;
use crate::point::Point;

verus! {

/// Static value of `b` for `c`, the side to move, when `me` is the engine:
/// the full evaluation for `me`, negated when `c` is the opponent, and
/// negated again in anti mode, where each side plays for the fewest discs.
pub open spec fn leaf_value(b: Seq<Cell>, c: Cell, me: Cell, even: bool, anti: bool) -> int {
    let v = sev3_spec(b, me, even);
    let own = if c == me {
        v
    } else {
        -v
    };
    if anti {
        -own
    } else {
        own
    }
}

/// The board after `c` plays move `m`.
pub open spec fn child_board(b: Seq<Cell>, c: Cell, m: (int, Seq<int>)) -> Seq<Cell> {
    apply_spec(b, m.0, m.1, c)
}

/// The full-width negamax value of `b` searched `depth` plies deep, for `c`
/// to move: the static value at depth 0 or when `c` has no move, else the
/// best over `c`'s moves of minus the value after the move.
pub open spec fn negamax_value(b: Seq<Cell>, depth: nat, c: Cell, me: Cell, even: bool, anti: bool) -> int
    decreases depth, 0nat,
{
    let ms = legal_moves_spec(b, c);
    if depth == 0 || ms.len() == 0 {
        leaf_value(b, c, me, even, anti)
    } else {
        best_child_value(b, (depth - 1) as nat, c, me, even, anti, ms.len())
    }
}

/// The best over the first `n` moves of `c` of minus the value, `d` plies
/// deep, after the move (`i32::MIN` over none).
pub open spec fn best_child_value(b: Seq<Cell>, d: nat, c: Cell, me: Cell, even: bool, anti: bool, n: nat) -> int
    decreases d, n + 1,
{
    if n == 0 {
        i32::MIN as int
    } else {
        let s = child_score(b, d, c, me, even, anti, n - 1);
        let prev = best_child_value(b, d, c, me, even, anti, (n - 1) as nat);
        if s > prev {
            s
        } else {
            prev
        }
    }
}

/// Minus the value, `d` plies deep, after `c` plays its move number `j`.
pub open spec fn child_score(b: Seq<Cell>, d: nat, c: Cell, me: Cell, even: bool, anti: bool, j: int) -> int
    decreases d, 1nat,
{
    -negamax_value(child_board(b, c, legal_moves_spec(b, c)[j]), d, opposite_of(c), me, even, anti)
}

/// What fail-soft alpha-beta search with window `(alpha, beta)` owes for a
/// position of value `v`: the value itself when it lies inside the window, and
/// a bound on the side where it lies otherwise.
pub open spec fn ab_sound(r: int, v: int, alpha: int, beta: int) -> bool {
    &&& (alpha < v < beta ==> r == v)
    &&& (v <= alpha ==> v <= r <= alpha)
    &&& (v >= beta ==> beta <= r <= v)
}

/// Alpha-beta search with the widest window gives the full-width value: a
/// result that obeys `ab_sound` for the window `(-i32::MAX, i32::MAX)` and lies
/// within the evaluation's bound is the value itself.
pub proof fn lemma_full_window_exact(r: int, v: int)
    requires
        ab_sound(r, v, -i32::MAX as int, i32::MAX as int),
        -sev3_bound() <= r <= sev3_bound(),
    ensures
        r == v,
{
}

proof fn lemma_best_child_monotone(
    b: Seq<Cell>,
    d: nat,
    c: Cell,
    me: Cell,
    even: bool,
    anti: bool,
    k: nat,
    n: nat,
)
    requires
        k <= n,
    ensures
        best_child_value(b, d, c, me, even, anti, k) <= best_child_value(b, d, c, me, even, anti, n),
    decreases n,
{
    if k < n {
        lemma_best_child_monotone(b, d, c, me, even, anti, k, (n - 1) as nat);
    }
}

proof fn lemma_best_child_covers(
    b: Seq<Cell>,
    d: nat,
    c: Cell,
    me: Cell,
    even: bool,
    anti: bool,
    j: int,
    n: nat,
)
    requires
        0 <= j < n,
    ensures
        child_score(b, d, c, me, even, anti, j) <= best_child_value(b, d, c, me, even, anti, n),
    decreases n,
{
    if j < n - 1 {
        lemma_best_child_covers(b, d, c, me, even, anti, j, (n - 1) as nat);
    }
}

proof fn lemma_child_step(b: Seq<Cell>, d: nat, c: Cell, me: Cell, even: bool, anti: bool, i: int, nb: Seq<Cell>)
    requires
        0 <= i,
        nb == child_board(b, c, legal_moves_spec(b, c)[i]),
    ensures
        child_score(b, d, c, me, even, anti, i) == -negamax_value(nb, d, opposite_of(c), me, even, anti),
        best_child_value(b, d, c, me, even, anti, (i + 1) as nat) == if child_score(b, d, c, me, even, anti, i)
            > best_child_value(b, d, c, me, even, anti, i as nat) {
            child_score(b, d, c, me, even, anti, i)
        } else {
            best_child_value(b, d, c, me, even, anti, i as nat)
        },
{
}

/// Score of root move `j` for the engine: minus the value after it, `depth`
/// plies deep, with the opponent to move.
pub open spec fn root_score(g: MatchState, depth: nat, j: int) -> int {
    child_score(g.board@, depth, g.my_color, g.my_color, depth % 2 == 0, g.is_anti, j)
}

/// Move `k` has the highest root score, and no earlier move has it.
pub open spec fn is_best_root_move(g: MatchState, depth: nat, k: int) -> bool {
    let n = legal_moves_spec(g.board@, g.my_color).len();
    &&& 0 <= k < n
    &&& forall|j: int| 0 <= j < n ==> #[trigger] root_score(g, depth, j) <= root_score(g, depth, k)
    &&& forall|j: int| 0 <= j < k ==> #[trigger] root_score(g, depth, j) < root_score(g, depth, k)
}

/// An engine that picks its move by depth-bounded negamax search with
/// alpha-beta pruning.
pub struct MinimaxBot {
    pub game: MatchState,
    pub max_tree_depth: usize,
}

impl MinimaxBot {
    /// A bot playing `my_color` from the opening position.
    pub fn new(black_hole: Option<Point>, my_color: Cell, max_tree_depth: usize, is_anti: bool) -> (r: Self)
        requires
            is_color(my_color),
        ensures
            r.game.wf(),
            r.game.board@ == initial_spec(match black_hole {
                Some(p) => p@,
                None => -1,
            }),
            r.game.my_color == my_color,
            r.game.current_color == Cell::Black,
            r.game.is_anti == is_anti,
            r.max_tree_depth == max_tree_depth,
    {
        MinimaxBot { game: MatchState::new(black_hole, my_color, is_anti), max_tree_depth }
    }

    /// Fail-soft alpha-beta negamax of `board`, `depth` plies deep, with
    /// `color` to move. The result obeys `ab_sound` against the full-width
    /// value, so pruning never changes a value inside the window.
    pub fn negamax(&self, board: Board, depth: usize, alpha: i32, beta: i32, color: Cell) -> (r: Score)
        requires
            self.game.wf(),
            is_color(color),
            -i32::MAX <= alpha < beta,
        ensures
            ab_sound(
                r as int,
                negamax_value(
                    board@,
                    depth as nat,
                    color,
                    self.game.my_color,
                    self.max_tree_depth % 2 == 0,
                    self.game.is_anti,
                ),
                alpha as int,
                beta as int,
            ),
            -sev3_bound() <= r <= sev3_bound(),
        decreases depth,
    {
        let allowed_moves = board.allowed_moves(color);
        if depth == 0 || allowed_moves.len() == 0 {
            let even_depth = self.max_tree_depth % 2 == 0;
            let e = sev3(&board, self.game.my_color, even_depth);
            let own = if color == self.game.my_color {
                e
            } else {
                -e
            };
            return if self.game.is_anti {
                -own
            } else {
                own
            };
        }
        let ghost b = board@;
        let ghost me = self.game.my_color;
        let ghost even = self.max_tree_depth % 2 == 0;
        let ghost anti = self.game.is_anti;
        let ghost d = (depth - 1) as nat;
        let ghost ms = legal_moves_spec(b, color);
        let ghost alpha0 = alpha as int;
        let mut a = alpha;
        let mut best: Score = i32::MIN;
        let mut i: usize = 0;
        while i < allowed_moves.len()
            invariant
                0 <= i <= ms.len(),
                moves_view(allowed_moves@) == ms,
                ms == legal_moves_spec(b, color),
                b == board@,
                is_color(color),
                self.game.wf(),
                me == self.game.my_color,
                even == (self.max_tree_depth % 2 == 0),
                anti == self.game.is_anti,
                d == depth - 1,
                depth > 0,
                alpha0 == alpha as int,
                alpha0 < beta,
                -i32::MAX <= alpha0,
                a == if best > alpha0 {
                    best as int
                } else {
                    alpha0
                },
                a < beta,
                i == 0 ==> best == i32::MIN,
                i > 0 ==> -sev3_bound() <= best <= sev3_bound(),
                best_child_value(b, d, color, me, even, anti, i as nat) <= alpha0 ==> best_child_value(
                    b,
                    d,
                    color,
                    me,
                    even,
                    anti,
                    i as nat,
                ) <= best <= alpha0,
                best_child_value(b, d, color, me, even, anti, i as nat) > alpha0 ==> best
                    == best_child_value(b, d, color, me, even, anti, i as nat),
            decreases ms.len() - i,
        {
            proof {
                assert(ms[i as int] == move_view(allowed_moves@[i as int]));
            }
            let new_board = board.with_move(&allowed_moves[i], color);
            let ghost alpha_before = a as int;
            let rc = self.negamax(new_board, depth - 1, -beta, -a, color.opposite());
            let sc = -rc;
            proof {
                assert(new_board@ == child_board(b, color, ms[i as int]));
                lemma_child_step(b, d, color, me, even, anti, i as int, new_board@);
            }
            if sc > best {
                best = sc;
            }
            a = max_of(a, best);
            if a >= beta {
                proof {
                    // the child failed high for us: its value is at least `beta`
                    let w = negamax_value(new_board@, d, opposite_of(color), me, even, anti);
                    assert(ab_sound(rc as int, w, -beta as int, -alpha_before));
                    lemma_best_child_monotone(b, d, color, me, even, anti, (i + 1) as nat, ms.len());
                    assert(negamax_value(b, depth as nat, color, me, even, anti) == best_child_value(
                        b,
                        d,
                        color,
                        me,
                        even,
                        anti,
                        ms.len(),
                    ));
                }
                return best;
            }
            i += 1;
        }
        best
    }

    /// The engine's move: the first of its legal moves with the highest
    /// negamax score `max_tree_depth` plies below the move. With a single
    /// legal move no search is made.
    pub fn run_negamax(&self) -> (r: PlayerMove)
        requires
            self.game.wf(),
            self.game.current_color == self.game.my_color,
            legal_moves_spec(self.game.board@, self.game.my_color).len() > 0,
        ensures
            exists|k: int|
                #[trigger] is_best_root_move(self.game, self.max_tree_depth as nat, k) && move_view(r)
                    == legal_moves_spec(self.game.board@, self.game.my_color)[k],
    {
        let allowed_moves = self.game.board.allowed_moves(self.game.current_color);
        let ghost g = self.game;
        let ghost depth = self.max_tree_depth as nat;
        let ghost ms = legal_moves_spec(g.board@, g.my_color);
        if allowed_moves.len() == 1 {
            let r = (allowed_moves[0].0, allowed_moves[0].1.clone());
            proof {
                assert(ms[0] == move_view(allowed_moves@[0]));
                assert(is_best_root_move(g, depth, 0));
            }
            return r;
        }
        let me = self.game.my_color;
        let beta: i32 = i32::MAX;
        let mut alpha: i32 = -i32::MAX;
        let mut best_score: Score = i32::MIN;
        let mut best_idx: usize = 0;
        let mut i: usize = 0;
        while i < allowed_moves.len()
            invariant
                0 <= i <= ms.len(),
                ms.len() > 0,
                moves_view(allowed_moves@) == ms,
                ms == legal_moves_spec(g.board@, g.my_color),
                g == self.game,
                g.wf(),
                me == g.my_color,
                g.current_color == me,
                depth == self.max_tree_depth,
                beta == i32::MAX,
                i == 0 ==> alpha == -i32::MAX,
                i > 0 ==> alpha == best_score,
                i > 0 ==> best_idx < i,
                i > 0 ==> -sev3_bound() <= best_score <= sev3_bound(),
                i > 0 ==> best_score == root_score(g, depth, best_idx as int),
                forall|j: int| 0 <= j < i ==> #[trigger] root_score(g, depth, j) <= best_score,
                forall|j: int| 0 <= j < best_idx ==> #[trigger] root_score(g, depth, j) < best_score,
            decreases ms.len() - i,
        {
            proof {
                assert(ms[i as int] == move_view(allowed_moves@[i as int]));
            }
            let new_board = self.game.board.with_move(&allowed_moves[i], me);
            let score = -self.negamax(new_board, self.max_tree_depth, -beta, -alpha, me.opposite());
            proof {
                assert(new_board@ == child_board(g.board@, me, ms[i as int]));
                lemma_child_step(g.board@, depth, me, me, self.max_tree_depth % 2 == 0, g.is_anti, i as int, new_board@);
            }
            if i == 0 || score > best_score {
                best_score = score;
                best_idx = i;
            }
            alpha = max_of(alpha, best_score);
            i += 1;
        }
        let r = (allowed_moves[best_idx].0, allowed_moves[best_idx].1.clone());
        proof {
            assert(ms[best_idx as int] == move_view(allowed_moves@[best_idx as int]));
            assert(is_best_root_move(g, depth, best_idx as int));
        }
        r
    }

    /// The exact score of root move `player_move` for the engine: minus the
    /// full-window negamax value after it, `max_tree_depth` plies deep. The
    /// root moves can be scored independently of each other, in parallel.
    pub fn score_root_move(&self, player_move: &PlayerMove) -> (r: Score)
        requires
            self.game.wf(),
            exists|k: int|
                0 <= k < legal_moves_spec(self.game.board@, self.game.my_color).len() && move_view(*player_move)
                    == legal_moves_spec(self.game.board@, self.game.my_color)[k],
        ensures
            forall|k: int|
                0 <= k < legal_moves_spec(self.game.board@, self.game.my_color).len() && move_view(*player_move)
                    == #[trigger] legal_moves_spec(self.game.board@, self.game.my_color)[k] ==> r == root_score(
                    self.game,
                    self.max_tree_depth as nat,
                    k,
                ),
    {
        let me = self.game.my_color;
        let new_board = self.game.board.with_move(player_move, me);
        let v = self.negamax(new_board, self.max_tree_depth, -i32::MAX, i32::MAX, me.opposite());
        proof {
            let g = self.game;
            let depth = self.max_tree_depth as nat;
            let ms = legal_moves_spec(g.board@, me);
            assert forall|k: int| 0 <= k < ms.len() && move_view(*player_move) == #[trigger] ms[k] implies -v
                == root_score(g, depth, k) by {
                assert(new_board@ == child_board(g.board@, me, ms[k]));
                lemma_child_step(g.board@, depth, me, me, self.max_tree_depth % 2 == 0, g.is_anti, k, new_board@);
            }
        }
        -v
    }
}

/// The position of the first highest score.
pub fn first_best(scores: &Vec<Score>) -> (r: usize)
    requires
        scores@.len() > 0,
    ensures
        r < scores@.len(),
        forall|j: int| 0 <= j < scores@.len() ==> scores@[j] <= scores@[r as int],
        forall|j: int| 0 <= j < r ==> scores@[j] < scores@[r as int],
{
    let mut best: usize = 0;
    let mut k: usize = 1;
    while k < scores.len()
        invariant
            1 <= k <= scores@.len(),
            best < k,
            forall|j: int| 0 <= j < k ==> scores@[j] <= scores@[best as int],
            forall|j: int| 0 <= j < best ==> scores@[j] < scores@[best as int],
        decreases scores@.len() - k,
    {
        if scores[k] > scores[best] {
            best = k;
        }
        k += 1;
    }
    best
}

} // verus!
