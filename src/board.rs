use vstd::prelude::*;

use crate::cell::{is_color, opposite_of, AllowedMoves, Cell, EndState, PlayerMove, TileIdx};
use crate::game::{is_terminal, outcome, wincheck};
use crate::point::{col_of, idx_of, row_of, Point};
use crate::random::random_below;
use rand::rngs::StdRng;

verus! {

/// The 64 cells of the board in row-major order.
#[derive(Clone, Copy)]
pub struct Board(pub [Cell; 64]);

impl View for Board {
    type V = Seq<Cell>;

    open spec fn view(&self) -> Seq<Cell> {
        self.0@
    }
}

/// Column step of compass direction `d` (north first, then clockwise).
pub open spec fn dx_of(d: int) -> int {
    if d == 0 || d == 4 {
        0
    } else if 1 <= d <= 3 {
        1
    } else {
        -1
    }
}

/// Row step of compass direction `d`.
pub open spec fn dy_of(d: int) -> int {
    if d == 2 || d == 6 {
        0
    } else if 3 <= d <= 5 {
        1
    } else {
        -1
    }
}

pub open spec fn on_board(x: int, y: int) -> bool {
    0 <= x < 8 && 0 <= y < 8
}

/// Column of the cell `k` steps from `t` in direction `d`.
pub open spec fn step_x(t: int, d: int, k: int) -> int {
    col_of(t) + k * dx_of(d)
}

/// Row of the cell `k` steps from `t` in direction `d`.
pub open spec fn step_y(t: int, d: int, k: int) -> int {
    row_of(t) + k * dy_of(d)
}

/// Index of the cell `k` steps from `t` in direction `d`.
pub open spec fn step_idx(t: int, d: int, k: int) -> int {
    idx_of(step_x(t, d, k), step_y(t, d, k))
}

/// The first step `j >= k` from `t` in direction `d` whose cell is not an
/// opponent disc of `c` (or lies off the board).
pub open spec fn run_end(b: Seq<Cell>, c: Cell, t: int, d: int, k: int) -> int
    decreases 8 - k,
{
    if k < 8 && on_board(step_x(t, d, k), step_y(t, d, k)) && b[step_idx(t, d, k)]
        == opposite_of(c) {
        run_end(b, c, t, d, k + 1)
    } else {
        k
    }
}

/// A run of opponent discs leaves `t` in direction `d` and ends on a disc of `c`.
pub open spec fn brackets(b: Seq<Cell>, c: Cell, t: int, d: int) -> bool {
    let e = run_end(b, c, t, d, 1);
    e >= 2 && on_board(step_x(t, d, e), step_y(t, d, e)) && b[step_idx(t, d, e)] == c
}

/// The discs that a move of `c` at `t` flips in direction `d`, nearest first.
pub open spec fn flips_dir(b: Seq<Cell>, c: Cell, t: int, d: int) -> Seq<int> {
    if brackets(b, c, t, d) {
        Seq::new((run_end(b, c, t, d, 1) - 1) as nat, |j: int| step_idx(t, d, j + 1))
    } else {
        Seq::empty()
    }
}

/// The discs flipped in the directions before `d`.
pub open spec fn flips_upto(b: Seq<Cell>, c: Cell, t: int, d: int) -> Seq<int>
    decreases d,
{
    if d <= 0 {
        Seq::empty()
    } else {
        flips_upto(b, c, t, d - 1) + flips_dir(b, c, t, d - 1)
    }
}

/// Every disc that a move of `c` at `t` flips: the runs of all eight directions.
pub open spec fn flips_of(b: Seq<Cell>, c: Cell, t: int) -> Seq<int> {
    flips_upto(b, c, t, 8)
}

/// `c` may move at `t`: the cell is empty and the move flips something.
pub open spec fn is_legal(b: Seq<Cell>, c: Cell, t: int) -> bool {
    b[t] == Cell::Empty && flips_of(b, c, t).len() > 0
}

/// The legal moves of `c` with a target below `t`, by ascending target.
pub open spec fn moves_upto(b: Seq<Cell>, c: Cell, t: int) -> Seq<(int, Seq<int>)>
    decreases t,
{
    if t <= 0 {
        Seq::empty()
    } else if is_legal(b, c, t - 1) {
        moves_upto(b, c, t - 1).push((t - 1, flips_of(b, c, t - 1)))
    } else {
        moves_upto(b, c, t - 1)
    }
}

/// All legal moves of `c`, by ascending target.
pub open spec fn legal_moves_spec(b: Seq<Cell>, c: Cell) -> Seq<(int, Seq<int>)> {
    moves_upto(b, c, 64)
}

/// A list of points as indices.
pub open spec fn points_view(v: Seq<Point>) -> Seq<int> {
    v.map_values(|p: Point| p@)
}

/// A move as its target and flipped indices.
pub open spec fn move_view(m: PlayerMove) -> (int, Seq<int>) {
    (m.0@, points_view(m.1@))
}

/// A list of moves as targets and flipped indices.
pub open spec fn moves_view(v: Seq<PlayerMove>) -> Seq<(int, Seq<int>)> {
    v.map_values(|m: PlayerMove| move_view(m))
}

/// The board after `c` takes cell `t` and the cells in `flips`.
pub open spec fn apply_spec(b: Seq<Cell>, t: int, flips: Seq<int>, c: Cell) -> Seq<Cell> {
    Seq::new(b.len(), |i: int| if i == t || flips.contains(i) { c } else { b[i] })
}

/// Number of cells holding `c` among the first `n`.
pub open spec fn count_upto(b: Seq<Cell>, c: Cell, n: int) -> int
    decreases n,
{
    if n <= 0 {
        0
    } else {
        count_upto(b, c, n - 1) + if b[n - 1] == c {
            1int
        } else {
            0
        }
    }
}

/// Number of cells holding `c`.
pub open spec fn count_of(b: Seq<Cell>, c: Cell) -> int {
    count_upto(b, c, 64)
}

/// Step of direction `d` as a pair.
fn direction(d: usize) -> (r: (TileIdx, TileIdx))
    requires
        d < 8,
    ensures
        r.0 == dx_of(d as int),
        r.1 == dy_of(d as int),
{
    if d == 0 {
        (0, -1)
    } else if d == 1 {
        (1, -1)
    } else if d == 2 {
        (1, 0)
    } else if d == 3 {
        (1, 1)
    } else if d == 4 {
        (0, 1)
    } else if d == 5 {
        (-1, 1)
    } else if d == 6 {
        (-1, 0)
    } else {
        (-1, -1)
    }
}

proof fn lemma_step_idx_range(t: int, d: int, k: int)
    requires
        on_board(step_x(t, d, k), step_y(t, d, k)),
    ensures
        0 <= step_idx(t, d, k) < 64,
        col_of(step_idx(t, d, k)) == step_x(t, d, k),
        row_of(step_idx(t, d, k)) == step_y(t, d, k),
{
}

/// Appends to `out` the discs that a move of `color` at `t` flips in direction `d`.
fn push_run(board: &Board, color: Cell, t: usize, d: usize, out: &mut Vec<Point>)
    requires
        is_color(color),
        t < 64,
        d < 8,
    ensures
        points_view(final(out)@) == points_view(old(out)@) + flips_dir(board@, color, t as int, d as int),
{
    let (dx, dy) = direction(d);
    let tx = (t % 8) as TileIdx;
    let ty = (t / 8) as TileIdx;
    let opp = color.opposite();
    let ghost b = board@;
    let ghost ti = t as int;
    let ghost di = d as int;
    let mut k: TileIdx = 1;
    let mut x: TileIdx = tx + dx;
    let mut y: TileIdx = ty + dy;
    while k < 8 && 0 <= x && x < 8 && 0 <= y && y < 8 && board.0[(y * 8 + x) as usize] == opp
        invariant
            1 <= k <= 8,
            x == step_x(ti, di, k as int),
            y == step_y(ti, di, k as int),
            -8 <= x <= 15,
            -8 <= y <= 15,
            tx == col_of(ti),
            ty == row_of(ti),
            dx == dx_of(di),
            dy == dy_of(di),
            b == board@,
            opp == opposite_of(color),
            run_end(b, color, ti, di, 1) == run_end(b, color, ti, di, k as int),
        decreases 8 - k,
    {
        proof {
            lemma_step_idx_range(ti, di, k as int);
        }
        x = x + dx;
        y = y + dy;
        k = k + 1;
    }
    proof {
        if k < 8 && on_board(x as int, y as int) {
            lemma_step_idx_range(ti, di, k as int);
        }
    }
    let brackets_run = k >= 2 && 0 <= x && x < 8 && 0 <= y && y < 8 && board.0[(y * 8 + x) as usize] == color;
    assert(brackets_run == brackets(b, color, ti, di)) by {
        if k >= 8 {
            lemma_eight_steps_leave(ti, di);
        }
        if on_board(x as int, y as int) {
            lemma_step_idx_range(ti, di, k as int);
        }
    }
    if brackets_run {
        let ghost start = points_view(out@);
        let mut j: TileIdx = 1;
        while j < k
            invariant
                1 <= j <= k,
                k == run_end(b, color, ti, di, 1),
                brackets(b, color, ti, di),
                tx == col_of(ti),
                ty == row_of(ti),
                dx == dx_of(di),
                dy == dy_of(di),
                0 <= ti < 64,
                k <= 8,
                points_view(out@) == start + flips_dir(b, color, ti, di).take(j - 1),
            decreases k - j,
        {
            proof {
                lemma_run_on_board(b, color, ti, di, j as int);
            }
            let p = Point::from_xy(tx + j * dx, ty + j * dy);
            let ghost before = out@;
            out.push(p);
            proof {
                let f = flips_dir(b, color, ti, di);
                assert(p@ == f[j - 1]);
                assert(points_view(out@) =~= points_view(before).push(p@));
                assert(f.take(j as int) =~= f.take(j - 1).push(p@));
                assert(points_view(out@) =~= start + f.take(j as int));
            }
            j = j + 1;
        }
        proof {
            assert(flips_dir(b, color, ti, di).take(k - 1) =~= flips_dir(b, color, ti, di));
        }
    } else {
        proof {
            // nothing is bracketed in this direction
            assert(flips_dir(b, color, ti, di) =~= Seq::<int>::empty());
            assert(points_view(out@) + Seq::<int>::empty() =~= points_view(out@));
        }
    }
}

/// Eight steps in any direction leave the board.
proof fn lemma_eight_steps_leave(t: int, d: int)
    requires
        0 <= t < 64,
        0 <= d < 8,
    ensures
        !on_board(step_x(t, d, 8), step_y(t, d, 8)),
{
    assert(0 <= col_of(t) < 8);
    assert(0 <= row_of(t) < 8);
}

/// Every cell before the end of a run lies on the board.
proof fn lemma_run_on_board(b: Seq<Cell>, c: Cell, t: int, d: int, j: int)
    requires
        1 <= j < run_end(b, c, t, d, 1),
    ensures
        on_board(step_x(t, d, j), step_y(t, d, j)),
        b[step_idx(t, d, j)] == opposite_of(c),
        j < 8,
{
    lemma_run_prefix(b, c, t, d, 1, j);
}

proof fn lemma_run_prefix(b: Seq<Cell>, c: Cell, t: int, d: int, k: int, j: int)
    requires
        1 <= k <= j < run_end(b, c, t, d, k),
    ensures
        on_board(step_x(t, d, j), step_y(t, d, j)),
        b[step_idx(t, d, j)] == opposite_of(c),
        j < 8,
    decreases j - k,
{
    if k < j {
        lemma_run_prefix(b, c, t, d, k + 1, j);
    }
}

/// The discs that a move of `color` at `t` flips, over all eight directions.
fn flips_at(board: &Board, color: Cell, t: usize) -> (r: Vec<Point>)
    requires
        is_color(color),
        t < 64,
    ensures
        points_view(r@) == flips_of(board@, color, t as int),
{
    let mut out: Vec<Point> = Vec::new();
    let mut d: usize = 0;
    while d < 8
        invariant
            d <= 8,
            is_color(color),
            t < 64,
            points_view(out@) == flips_upto(board@, color, t as int, d as int),
        decreases 8 - d,
    {
        push_run(board, color, t, d, &mut out);
        d += 1;
    }
    out
}

/// Every legal move of `color`, by ascending target cell.
///
/// A target is an empty cell from which, in at least one of the eight compass
/// directions, a run of opponent discs ends on a disc of `color`; the move
/// flips every such run. The black hole, like the edge, ends a run without
/// bracketing it.
pub fn get_allowed_moves(board: &Board, color: Cell) -> (r: AllowedMoves)
    requires
        is_color(color),
    ensures
        moves_view(r@) == legal_moves_spec(board@, color),
{
    let mut res: AllowedMoves = Vec::new();
    let mut t: usize = 0;
    while t < 64
        invariant
            t <= 64,
            is_color(color),
            moves_view(res@) == moves_upto(board@, color, t as int),
        decreases 64 - t,
    {
        let ghost before = res@;
        if board.0[t] == Cell::Empty {
            let flips = flips_at(board, color, t);
            if flips.len() > 0 {
                let p = Point::from_idx(t as TileIdx);
                res.push((p, flips));
                proof {
                    assert(moves_view(res@) =~= moves_view(before).push(move_view(res@[res@.len() - 1])));
                }
            }
        }
        t += 1;
    }
    res
}

impl Board {
    /// The opening position: white on (3,3) and (4,4), black on (3,4) and
    /// (4,3), and the black hole where one is given.
    pub fn initial(black_hole: Option<Point>) -> (r: Self)
        ensures
            r@ == initial_spec(match black_hole {
                Some(p) => p@,
                None => -1,
            }),
    {
        let mut board = Board([Cell::Empty; 64]);
        assert(forall|i: int| 0 <= i < 64 ==> board@[i] == Cell::Empty);
        board.place(Point::from_xy(3, 3), Cell::White);
        board.place(Point::from_xy(4, 4), Cell::White);
        board.place(Point::from_xy(3, 4), Cell::Black);
        board.place(Point::from_xy(4, 3), Cell::Black);
        assert(board@ =~= initial_spec(-1));
        if let Some(bh) = black_hole {
            board.place(bh, Cell::BlackHole);
            assert(board@ =~= initial_spec(bh@));
        }
        board
    }

    /// Puts `color` on cell `p`.
    pub fn place(&mut self, p: Point, color: Cell)
        ensures
            0 <= p@ < 64,
            final(self)@ == old(self)@.update(p@, color),
    {
        let i = p.usize();
        self.0[i] = color;
    }

    /// Plays `player_move`, one of `color`'s legal moves, for `color`: its
    /// target and every cell that it flips become `color`.
    pub fn apply_move(&mut self, player_move: &PlayerMove, color: Cell)
        requires
            is_color(color),
            is_legal_move(old(self)@, color, move_view(*player_move)),
        ensures
            final(self)@ == apply_spec(old(self)@, player_move.0@, points_view(player_move.1@), color),
    {
        let ghost b0 = self@;
        let ghost fl = points_view(player_move.1@);
        let t = player_move.0.usize();
        self.0[t] = color;
        let mut i: usize = 0;
        while i < player_move.1.len()
            invariant
                i <= player_move.1@.len(),
                fl == points_view(player_move.1@),
                self@ == apply_spec(b0, player_move.0@, fl.take(i as int), color),
            decreases player_move.1@.len() - i,
        {
            let f = player_move.1[i].usize();
            self.0[f] = color;
            proof {
                let s1 = fl.take(i as int);
                let s2 = fl.take(i + 1);
                assert(s2 =~= s1.push(f as int));
                assert forall|j: int| #[trigger] s2.contains(j) <==> (s1.contains(j) || j == f) by {
                    if s2.contains(j) {
                        let k = choose|k: int| 0 <= k < s2.len() && s2[k] == j;
                        if k < s1.len() {
                            assert(s1[k] == j);
                        }
                    }
                    if s1.contains(j) {
                        let k = choose|k: int| 0 <= k < s1.len() && s1[k] == j;
                        assert(s2[k] == j);
                    }
                    if j == f {
                        assert(s2[i as int] == j);
                    }
                }
                assert(self@ =~= apply_spec(b0, player_move.0@, s2, color));
            }
            i += 1;
        }
        proof {
            assert(fl.take(i as int) =~= fl);
        }
    }

    /// Every legal move of `color`, by ascending target cell.
    pub fn allowed_moves(&self, color: Cell) -> (r: AllowedMoves)
        requires
            is_color(color),
        ensures
            moves_view(r@) == legal_moves_spec(self@, color),
    {
        get_allowed_moves(self, color)
    }

    /// The content of cell `point`.
    pub fn at(&self, point: Point) -> (r: Cell)
        ensures
            r == self@[point@],
    {
        self.0[point.usize()]
    }

    /// Number of cells holding `color`.
    pub fn count(&self, color: Cell) -> (r: usize)
        ensures
            r == count_of(self@, color),
    {
        let mut n: usize = 0;
        let mut i: usize = 0;
        while i < 64
            invariant
                i <= 64,
                n == count_upto(self@, color, i as int),
                n <= i,
            decreases 64 - i,
        {
            if self.0[i] == color {
                n += 1;
            }
            i += 1;
        }
        n
    }

    /// A copy of the board with `player_move`, one of `color`'s legal moves,
    /// played for `color`; `self` is left as it was.
    pub fn with_move(&self, player_move: &PlayerMove, color: Cell) -> (r: Self)
        requires
            is_color(color),
            is_legal_move(self@, color, move_view(*player_move)),
        ensures
            r@ == apply_spec(self@, player_move.0@, points_view(player_move.1@), color),
    {
        let mut result = *self;
        result.apply_move(player_move, color);
        result
    }
}

/// The opening position, with the black hole on cell `bh` (none if `bh` is
/// not a cell).
pub open spec fn initial_spec(bh: int) -> Seq<Cell> {
    Seq::new(
        64,
        |i: int|
            if i == bh {
                Cell::BlackHole
            } else if i == 27 || i == 36 {
                Cell::White
            } else if i == 35 || i == 28 {
                Cell::Black
            } else {
                Cell::Empty
            },
    )
}

/// One of the six principal lines: the four edges and the two diagonals.
#[derive(Clone, Copy, Debug, PartialEq, Eq, Structural)]
pub enum MainLine {
    Top,
    Left,
    Right,
    Bottom,
    TopLeftBottomRight,
    TopRightBottomLeft,
}

/// Index of the `i`-th cell of line `ml`.
pub open spec fn mainline_idx(ml: MainLine, i: int) -> int {
    match ml {
        MainLine::Top => idx_of(i, 0),
        MainLine::Left => idx_of(0, i),
        MainLine::Right => idx_of(7, i),
        MainLine::Bottom => idx_of(i, 7),
        MainLine::TopLeftBottomRight => idx_of(i, i),
        MainLine::TopRightBottomLeft => idx_of(7 - i, i),
    }
}

/// Number of empty cells among the neighbours of `p` in the directions before `d`.
pub open spec fn empty_neighbours_upto(b: Seq<Cell>, p: int, d: int) -> int
    decreases d,
{
    if d <= 0 {
        0
    } else {
        empty_neighbours_upto(b, p, d - 1) + if on_board(step_x(p, d - 1, 1), step_y(p, d - 1, 1))
            && b[step_idx(p, d - 1, 1)] == Cell::Empty {
            1int
        } else {
            0
        }
    }
}

/// Number of empty cells among the (up to eight) neighbours of `p`.
pub open spec fn empty_neighbours(b: Seq<Cell>, p: int) -> int {
    empty_neighbours_upto(b, p, 8)
}

impl Board {
    /// Number of empty cells among the neighbours of `pos`.
    pub fn nempty_neighbours(&self, pos: Point) -> (r: i32)
        ensures
            r == empty_neighbours(self@, pos@),
            0 <= r <= 8,
    {
        let (px, py) = pos.to_xy();
        let mut res: i32 = 0;
        let mut d: usize = 0;
        while d < 8
            invariant
                d <= 8,
                px == col_of(pos@),
                py == row_of(pos@),
                0 <= px < 8,
                0 <= py < 8,
                res == empty_neighbours_upto(self@, pos@, d as int),
                0 <= res <= d,
            decreases 8 - d,
        {
            let (dx, dy) = direction(d);
            let x = px + dx;
            let y = py + dy;
            if 0 <= x && x < 8 && 0 <= y && y < 8 {
                proof {
                    lemma_step_idx_range(pos@, d as int, 1);
                }
                if self.0[(y * 8 + x) as usize] == Cell::Empty {
                    res += 1;
                }
            }
            d += 1;
        }
        res
    }

    /// The eight cells of line `mainline`, from its first end.
    pub fn mainline(&self, mainline: MainLine) -> (r: Vec<Cell>)
        ensures
            r@ == Seq::new(8, |i: int| self@[mainline_idx(mainline, i)]),
    {
        let mut out: Vec<Cell> = Vec::new();
        let mut i: TileIdx = 0;
        while i < 8
            invariant
                0 <= i <= 8,
                out@ == Seq::new(i as nat, |j: int| self@[mainline_idx(mainline, j)]),
            decreases 8 - i,
        {
            let (x, y) = match mainline {
                MainLine::Top => (i, 0),
                MainLine::Left => (0, i),
                MainLine::Right => (7, i),
                MainLine::Bottom => (i, 7),
                MainLine::TopLeftBottomRight => (i, i),
                MainLine::TopRightBottomLeft => (7 - i, i),
            };
            out.push(self.at(Point::from_xy(x, y)));
            proof {
                assert(out@ =~= Seq::new((i + 1) as nat, |j: int| self@[mainline_idx(mainline, j)]));
            }
            i += 1;
        }
        out
    }
}

/// Each entry of `moves_upto(b, c, t)` is a legal target below `t` with its flips.
pub proof fn lemma_moves_upto_entry(b: Seq<Cell>, c: Cell, t: int, i: int)
    requires
        0 <= t <= 64,
        0 <= i < moves_upto(b, c, t).len(),
    ensures
        0 <= moves_upto(b, c, t)[i].0 < t,
        is_legal(b, c, moves_upto(b, c, t)[i].0),
        moves_upto(b, c, t)[i].1 == flips_of(b, c, moves_upto(b, c, t)[i].0),
    decreases t,
{
    if t > 0 {
        if is_legal(b, c, t - 1) && i == moves_upto(b, c, t - 1).len() {
        } else {
            lemma_moves_upto_entry(b, c, t - 1, i);
        }
    }
}

/// Every disc in the runs of the directions before `d` is an opponent disc on the board.
pub proof fn lemma_flips_upto_opponent(b: Seq<Cell>, c: Cell, t: int, d: int, k: int)
    requires
        0 <= d <= 8,
        0 <= t < 64,
        0 <= k < flips_upto(b, c, t, d).len(),
    ensures
        0 <= flips_upto(b, c, t, d)[k] < 64,
        b[flips_upto(b, c, t, d)[k]] == opposite_of(c),
    decreases d,
{
    if d > 0 {
        let prev = flips_upto(b, c, t, d - 1);
        if k < prev.len() {
            lemma_flips_upto_opponent(b, c, t, d - 1, k);
        } else {
            let j = k - prev.len();
            lemma_run_on_board(b, c, t, d - 1, j + 1);
            lemma_step_idx_range(t, d - 1, j + 1);
        }
    }
}

/// Each entry of the legal move list is a legal target with its flips.
pub proof fn lemma_legal_move_entry(b: Seq<Cell>, c: Cell, i: int)
    requires
        0 <= i < legal_moves_spec(b, c).len(),
    ensures
        0 <= legal_moves_spec(b, c)[i].0 < 64,
        is_legal(b, c, legal_moves_spec(b, c)[i].0),
        legal_moves_spec(b, c)[i].1 == flips_of(b, c, legal_moves_spec(b, c)[i].0),
        forall|k: int|
            0 <= k < legal_moves_spec(b, c)[i].1.len() ==> 0 <= #[trigger] legal_moves_spec(b, c)[i].1[k] < 64
                && b[legal_moves_spec(b, c)[i].1[k]] == opposite_of(c),
{
    lemma_moves_upto_entry(b, c, 64, i);
    let t = legal_moves_spec(b, c)[i].0;
    assert forall|k: int| 0 <= k < legal_moves_spec(b, c)[i].1.len() implies 0
        <= #[trigger] legal_moves_spec(b, c)[i].1[k] < 64 && b[legal_moves_spec(b, c)[i].1[k]]
        == opposite_of(c) by {
        lemma_flips_upto_opponent(b, c, t, 8, k);
    }
}

/// A move from the legal move list never touches the black hole; its target
/// was empty and becomes the mover's; every disc it flips was the opponent's
/// before the move and is the mover's after it.
pub proof fn lemma_legal_move_sound(b: Seq<Cell>, c: Cell, i: int)
    requires
        b.len() == 64,
        is_color(c),
        0 <= i < legal_moves_spec(b, c).len(),
    ensures
        ({
            let m = legal_moves_spec(b, c)[i];
            let a = apply_spec(b, m.0, m.1, c);
            &&& a.len() == 64
            &&& 0 <= m.0 < 64
            &&& forall|j: int| 0 <= j < 64 && b[j] == Cell::BlackHole ==> #[trigger] a[j] == Cell::BlackHole
            &&& b[m.0] == Cell::Empty
            &&& a[m.0] == c
            &&& forall|k: int|
                0 <= k < m.1.len() ==> b[#[trigger] m.1[k]] == opposite_of(c) && a[m.1[k]] == c
        }),
{
    lemma_legal_move_entry(b, c, i);
    let m = legal_moves_spec(b, c)[i];
    let a = apply_spec(b, m.0, m.1, c);
    assert forall|j: int| 0 <= j < 64 && b[j] == Cell::BlackHole implies #[trigger] a[j] == Cell::BlackHole by {
        if m.1.contains(j) {
            let k = choose|k: int| 0 <= k < m.1.len() && m.1[k] == j;
            assert(b[m.1[k]] == opposite_of(c));
        }
    }
    assert forall|k: int| 0 <= k < m.1.len() implies b[#[trigger] m.1[k]] == opposite_of(c) && a[m.1[k]] == c by {
        assert(m.1.contains(m.1[k]));
    }
}

/// Playing a legal move fills exactly one empty cell.
pub proof fn lemma_legal_move_fills_one(b: Seq<Cell>, c: Cell, i: int)
    requires
        b.len() == 64,
        is_color(c),
        0 <= i < legal_moves_spec(b, c).len(),
    ensures
        ({
            let m = legal_moves_spec(b, c)[i];
            count_of(apply_spec(b, m.0, m.1, c), Cell::Empty) == count_of(b, Cell::Empty) - 1
        }),
{
    lemma_legal_move_sound(b, c, i);
    let m = legal_moves_spec(b, c)[i];
    let a = apply_spec(b, m.0, m.1, c);
    assert forall|j: int| 0 <= j < 64 && j != m.0 implies (#[trigger] a[j] == Cell::Empty) == (b[j]
        == Cell::Empty) by {
        if m.1.contains(j) {
            let k = choose|k: int| 0 <= k < m.1.len() && m.1[k] == j;
            assert(b[m.1[k]] == opposite_of(c));
        }
    }
    lemma_count_one_filled(b, a, m.0, 64);
}

proof fn lemma_count_one_filled(b: Seq<Cell>, a: Seq<Cell>, t: int, n: int)
    requires
        0 <= n <= 64,
        b.len() == 64,
        a.len() == 64,
        0 <= t < 64,
        b[t] == Cell::Empty,
        a[t] != Cell::Empty,
        forall|j: int| 0 <= j < 64 && j != t ==> (#[trigger] a[j] == Cell::Empty) == (b[j] == Cell::Empty),
    ensures
        count_upto(a, Cell::Empty, n) == count_upto(b, Cell::Empty, n) - if t < n {
            1int
        } else {
            0
        },
    decreases n,
{
    if n > 0 {
        lemma_count_one_filled(b, a, t, n - 1);
    }
}

/// There are at most `t` legal moves with a target below `t`.
pub proof fn lemma_moves_upto_len(b: Seq<Cell>, c: Cell, t: int)
    requires
        0 <= t,
    ensures
        moves_upto(b, c, t).len() <= t,
    decreases t,
{
    if t > 0 {
        lemma_moves_upto_len(b, c, t - 1);
    }
}

/// The count of a color over a prefix never exceeds its length.
pub proof fn lemma_count_bounds(b: Seq<Cell>, c: Cell, n: int)
    requires
        0 <= n,
    ensures
        0 <= count_upto(b, c, n) <= n,
    decreases n,
{
    if n > 0 {
        lemma_count_bounds(b, c, n - 1);
    }
}

/// The side that moves next from `b` with `c` to move: `c` when it has a
/// legal move, else the other side (`c` passes).
pub open spec fn mover(b: Seq<Cell>, c: Cell) -> Cell {
    if legal_moves_spec(b, c).len() > 0 {
        c
    } else {
        opposite_of(c)
    }
}

/// One turn of a playout leads from `b` with `c` to move to `b2` with `c2`
/// to move: the side that moves next plays one of its legal moves (after a
/// pass of `c` if `c` has none) and the turn goes to its opponent.
pub open spec fn is_turn(b: Seq<Cell>, c: Cell, b2: Seq<Cell>, c2: Cell) -> bool {
    let m = mover(b, c);
    exists|i: int|
        0 <= i < legal_moves_spec(b, m).len() && b2 == apply_spec(
            b,
            (#[trigger] legal_moves_spec(b, m)[i]).0,
            legal_moves_spec(b, m)[i].1,
            m,
        ) && c2 == opposite_of(m)
}

/// `bs` and `cs` trace a line of play from `b0` with `c0` to move: the
/// boards and the colors to move, each state one turn after the one before.
pub open spec fn is_trace(b0: Seq<Cell>, c0: Cell, bs: Seq<Seq<Cell>>, cs: Seq<Cell>) -> bool {
    &&& bs.len() == cs.len()
    &&& bs.len() >= 1
    &&& bs[0] == b0
    &&& cs[0] == c0
    &&& forall|i: int| 0 <= i < bs.len() - 1 ==> #[trigger] is_turn(bs[i], cs[i], bs[i + 1], cs[i + 1])
}

/// Board `b` arises by play from `b0` with `c0` to move.
pub open spec fn playout_reaches(b0: Seq<Cell>, c0: Cell, b: Seq<Cell>) -> bool {
    exists|bs: Seq<Seq<Cell>>, cs: Seq<Cell>| #[trigger] is_trace(b0, c0, bs, cs) && bs.last() == b
}

/// `r` is a possible result of a playout from `b0` with `c0` to move: the
/// disc-count outcome of a board that play from `b0` reaches and on which
/// neither side can move; on a board where neither side can move, that
/// board's own outcome.
pub open spec fn is_playout_result(b0: Seq<Cell>, c0: Cell, r: EndState, is_anti: bool) -> bool {
    &&& exists|fb: Seq<Cell>| #[trigger] playout_reaches(b0, c0, fb) && is_terminal(fb) && r == outcome(fb, is_anti)
    &&& is_terminal(b0) ==> r == outcome(b0, is_anti)
}

/// The move `m` is among the legal moves of `c` on `b`.
pub open spec fn is_legal_move(b: Seq<Cell>, c: Cell, m: (int, Seq<int>)) -> bool {
    exists|k: int| 0 <= k < legal_moves_spec(b, c).len() && #[trigger] legal_moves_spec(b, c)[k] == m
}

impl Board {
    /// Plays `color`'s legal move number `i` (of `allowed`, the legal moves of
    /// `color` on this board); one empty cell fewer remains.
    fn play_listed(&mut self, allowed: &AllowedMoves, i: usize, color: Cell)
        requires
            is_color(color),
            i < allowed@.len(),
            moves_view(allowed@) == legal_moves_spec(old(self)@, color),
        ensures
            final(self)@ == apply_spec(
                old(self)@,
                legal_moves_spec(old(self)@, color)[i as int].0,
                legal_moves_spec(old(self)@, color)[i as int].1,
                color,
            ),
            count_of(final(self)@, Cell::Empty) == count_of(old(self)@, Cell::Empty) - 1,
            count_of(final(self)@, Cell::Empty) >= 0,
    {
        proof {
            assert(moves_view(allowed@)[i as int] == move_view(allowed@[i as int]));
            lemma_legal_move_fills_one(self@, color, i as int);
        }
        self.apply_move(&allowed[i], color);
        proof {
            lemma_count_bounds(self@, Cell::Empty, 64);
        }
    }

    /// One turn of a playout with `color` to move, whose legal moves are
    /// `allowed`: the side that moves next (`color`, or its opponent when
    /// `color` has no move and passes) plays its legal move number `i`.
    /// Returns the new board and the color to move on it.
    pub fn playout_step(&self, color: Cell, allowed: &AllowedMoves, i: usize) -> (r: (Board, Cell))
        requires
            is_color(color),
            moves_view(allowed@) == legal_moves_spec(self@, color),
            i < legal_moves_spec(self@, mover(self@, color)).len(),
        ensures
            ({
                let m = mover(self@, color);
                let mv = legal_moves_spec(self@, m)[i as int];
                &&& r.0@ == apply_spec(self@, mv.0, mv.1, m)
                &&& r.1 == opposite_of(m)
                &&& is_color(r.1)
                &&& is_turn(self@, color, r.0@, r.1)
                &&& count_of(r.0@, Cell::Empty) == count_of(self@, Cell::Empty) - 1
                &&& count_of(r.0@, Cell::Empty) >= 0
            }),
    {
        let mut next = *self;
        if allowed.len() > 0 {
            next.play_listed(allowed, i, color);
            let r = (next, color.opposite());
            proof {
                assert(legal_moves_spec(self@, color)[i as int] == legal_moves_spec(self@, mover(self@, color))[i as int]);
            }
            r
        } else {
            let other = color.opposite();
            let theirs = self.allowed_moves(other);
            next.play_listed(&theirs, i, other);
            let r = (next, color);
            proof {
                assert(legal_moves_spec(self@, other)[i as int] == legal_moves_spec(self@, mover(self@, color))[i as int]);
            }
            r
        }
    }

    /// A random playout from `board` with `color` to move: uniformly random
    /// legal moves, a side without moves passes, until neither side can move.
    /// A side with a single move plays it at once.
    pub fn simauto(board: Board, color: Cell, is_anti: bool, rng: &mut StdRng) -> (r: EndState)
        requires
            is_color(color),
        ensures
            r != EndState::Unknown,
            is_playout_result(board@, color, r, is_anti),
    {
        let ghost b0 = board@;
        let ghost c0 = color;
        let ghost mut bs: Seq<Seq<Cell>> = seq![board@];
        let ghost mut cs: Seq<Cell> = seq![color];
        let mut cur = board;
        let mut to_move = color;
        loop
            invariant
                b0 == board@,
                c0 == color,
                is_color(to_move),
                is_trace(b0, c0, bs, cs),
                bs.last() == cur@,
                cs.last() == to_move,
                is_terminal(b0) ==> cur@ == b0,
            decreases count_of(cur@, Cell::Empty),
        {
            proof {
                lemma_count_bounds(cur@, Cell::Empty, 64);
            }
            let allowed = cur.allowed_moves(to_move);
            if allowed.len() == 1 {
                let (next, c) = cur.playout_step(to_move, &allowed, 0);
                cur = next;
                to_move = c;
                proof {
                    lemma_trace_push(b0, c0, bs, cs, cur@, to_move);
                    bs = bs.push(cur@);
                    cs = cs.push(to_move);
                }
                continue;
            }
            let win = wincheck(&cur, &allowed, is_anti, to_move);
            if win.is_over() {
                proof {
                    lemma_playout_ends(b0, c0, bs, cs, cur@, to_move, is_anti);
                }
                return win;
            }
            let n_moves = if allowed.len() > 0 {
                allowed.len()
            } else {
                cur.allowed_moves(to_move.opposite()).len()
            };
            let i = random_below(rng, n_moves);
            let (next, c) = cur.playout_step(to_move, &allowed, i);
            cur = next;
            to_move = c;
            proof {
                lemma_trace_push(b0, c0, bs, cs, cur@, to_move);
                bs = bs.push(cur@);
                cs = cs.push(to_move);
            }
        }
    }

    /// Plays `player_move` for `color`, then a random playout with the other
    /// side to move, as in `simauto` but without the single-move shortcut.
    pub fn sim(board: &Board, player_move: PlayerMove, color: Cell, is_anti: bool, rng: &mut StdRng) -> (r: EndState)
        requires
            is_color(color),
            is_legal_move(board@, color, move_view(player_move)),
        ensures
            r != EndState::Unknown,
            is_playout_result(
                apply_spec(board@, player_move.0@, points_view(player_move.1@), color),
                opposite_of(color),
                r,
                is_anti,
            ),
    {
        let mut new_board = board.with_move(&player_move, color);
        let mut to_move = color.opposite();
        let ghost b1 = new_board@;
        let ghost c1 = to_move;
        let ghost mut bs: Seq<Seq<Cell>> = seq![b1];
        let ghost mut cs: Seq<Cell> = seq![c1];
        loop
            invariant
                b1 == apply_spec(board@, player_move.0@, points_view(player_move.1@), color),
                c1 == opposite_of(color),
                is_color(to_move),
                is_trace(b1, c1, bs, cs),
                bs.last() == new_board@,
                cs.last() == to_move,
                is_terminal(b1) ==> new_board@ == b1,
            decreases count_of(new_board@, Cell::Empty),
        {
            proof {
                lemma_count_bounds(new_board@, Cell::Empty, 64);
            }
            let allowed = new_board.allowed_moves(to_move);
            let win = wincheck(&new_board, &allowed, is_anti, to_move);
            if win.is_over() {
                proof {
                    lemma_playout_ends(b1, c1, bs, cs, new_board@, to_move, is_anti);
                }
                return win;
            }
            let n_moves = if allowed.len() > 0 {
                allowed.len()
            } else {
                new_board.allowed_moves(to_move.opposite()).len()
            };
            let i = random_below(rng, n_moves);
            let (next, c) = new_board.playout_step(to_move, &allowed, i);
            new_board = next;
            to_move = c;
            proof {
                lemma_trace_push(b1, c1, bs, cs, new_board@, to_move);
                bs = bs.push(new_board@);
                cs = cs.push(to_move);
            }
        }
    }
}

/// One more turn extends a trace.
proof fn lemma_trace_push(
    b0: Seq<Cell>,
    c0: Cell,
    bs: Seq<Seq<Cell>>,
    cs: Seq<Cell>,
    b: Seq<Cell>,
    c: Cell,
)
    requires
        is_trace(b0, c0, bs, cs),
        is_turn(bs.last(), cs.last(), b, c),
    ensures
        is_trace(b0, c0, bs.push(b), cs.push(c)),
{
    let bs2 = bs.push(b);
    let cs2 = cs.push(c);
    assert forall|i: int| 0 <= i < bs2.len() - 1 implies #[trigger] is_turn(bs2[i], cs2[i], bs2[i + 1], cs2[i + 1]) by {
        if i < bs.len() - 1 {
            assert(is_turn(bs[i], cs[i], bs[i + 1], cs[i + 1]));
        }
    }
}

/// A playout that stops on a board where the side to move and its opponent
/// have no move ends with that board's outcome.
proof fn lemma_playout_ends(
    b0: Seq<Cell>,
    c0: Cell,
    bs: Seq<Seq<Cell>>,
    cs: Seq<Cell>,
    b: Seq<Cell>,
    c: Cell,
    is_anti: bool,
)
    requires
        b.len() == 64,
        is_color(c),
        is_trace(b0, c0, bs, cs),
        bs.last() == b,
        cs.last() == c,
        legal_moves_spec(b, c).len() == 0,
        legal_moves_spec(b, opposite_of(c)).len() == 0,
        is_terminal(b0) ==> b == b0,
    ensures
        is_playout_result(b0, c0, outcome(b, is_anti), is_anti),
{
    assert(is_terminal(b));
    assert(playout_reaches(b0, c0, b));
}

} // verus!
