use vstd::prelude::*;

use crate::board::{count_of, empty_neighbours, mainline_idx, Board, MainLine};
use crate::cell::{is_color, opposite_of, Cell, Score};
use crate::point::{col_of, row_of, unmirror8_of, Point};

verus! {

/// Disc difference: discs of `player_color` minus discs of the opponent.
pub fn static_eval(board: &Board, player_color: Cell) -> (r: Score)
    requires
        is_color(player_color),
    ensures
        r == count_of(board@, player_color) - count_of(board@, opposite_of(player_color)),
{
    let my_discs = board.count(player_color) as Score;
    let other_discs = board.count(player_color.opposite()) as Score;
    proof {
        crate::board::lemma_count_bounds(board@, player_color, 64);
        crate::board::lemma_count_bounds(board@, opposite_of(player_color), 64);
    }
    my_discs - other_discs
}

pub const GOOD_CORNER: Score = 10;

pub const GOOD_EDGE: Score = 5;

pub const BAD_EDGE: Score = -5;

pub const REGULAR: Score = 1;

/// Weight of cell `i` in the coarse table: good corners and edges, bad cells
/// next to a corner.
pub open spec fn tile_cost_1_spec(i: int) -> int {
    let u = unmirror8_of(i);
    let x = col_of(u);
    let y = row_of(u);
    if x == 0 && y == 0 {
        10
    } else if x == 1 && (y == 0 || y == 1) {
        -5
    } else if y == 0 && (x == 2 || x == 3) {
        5
    } else if y == 1 && (x == 2 || x == 3) {
        -5
    } else {
        1
    }
}

/// Weight of cell `i` in the fine table, given on the ten cells of one octant:
///
/// ```text
/// 410,  23,  13,   8
///      -75, -22, -51
///            41,   3
///                -87
/// ```
pub open spec fn tile_cost_2_spec(i: int) -> int {
    let u = unmirror8_of(i);
    if u == 0 {
        410
    } else if u == 1 {
        23
    } else if u == 2 {
        13
    } else if u == 3 {
        8
    } else if u == 9 {
        -75
    } else if u == 10 {
        -22
    } else if u == 11 {
        -51
    } else if u == 18 {
        41
    } else if u == 19 {
        3
    } else {
        -87
    }
}

fn tile_cost_1(pos: Point) -> (r: Score)
    ensures
        r == tile_cost_1_spec(pos@),
{
    let (x, y) = pos.unmirror8().to_xy();
    if x == 0 && y == 0 {
        GOOD_CORNER
    } else if x == 1 && (y == 0 || y == 1) {
        BAD_EDGE
    } else if y == 0 && (x == 2 || x == 3) {
        GOOD_EDGE
    } else if y == 1 && (x == 2 || x == 3) {
        BAD_EDGE
    } else {
        REGULAR
    }
}

/// Weight of cell `pos` in the fine table.
pub fn tile_cost_2(pos: Point) -> (r: Score)
    ensures
        r == tile_cost_2_spec(pos@),
        -87 <= r <= 410,
{
    let i = pos.unmirror8().to_idx();
    if i == 0 {
        410
    } else if i == 1 {
        23
    } else if i == 2 {
        13
    } else if i == 3 {
        8
    } else if i == 9 {
        -75
    } else if i == 10 {
        -22
    } else if i == 11 {
        -51
    } else if i == 18 {
        41
    } else if i == 19 {
        3
    } else {
        -87
    }
}

/// A weight counted for the holder of a cell: plus for `c`, minus for the
/// opponent, nothing for an empty cell or the black hole.
pub open spec fn signed(cell: Cell, c: Cell, w: int) -> int {
    if cell == c {
        w
    } else if cell == opposite_of(c) {
        -w
    } else {
        0
    }
}

/// Sum of the coarse weights over the first `n` cells, as seen by `c`.
pub open spec fn weights_1_upto(b: Seq<Cell>, c: Cell, n: int) -> int
    decreases n,
{
    if n <= 0 {
        0
    } else {
        weights_1_upto(b, c, n - 1) + signed(b[n - 1], c, tile_cost_1_spec(n - 1))
    }
}

/// Sum of the fine weights over the first `n` cells, as seen by `c`.
pub open spec fn weights_2_upto(b: Seq<Cell>, c: Cell, n: int) -> int
    decreases n,
{
    if n <= 0 {
        0
    } else {
        weights_2_upto(b, c, n - 1) + signed(b[n - 1], c, tile_cost_2_spec(n - 1))
    }
}

/// Coarse table evaluation: the weights of `player_color`'s cells minus those
/// of the opponent's.
pub fn static_eval_with_weights_1(board: &Board, player_color: Cell) -> (r: Score)
    requires
        is_color(player_color),
    ensures
        r == weights_1_upto(board@, player_color, 64),
{
    let opposite = player_color.opposite();
    let mut sum: Score = 0;
    let mut i: usize = 0;
    while i < 64
        invariant
            i <= 64,
            opposite == opposite_of(player_color),
            sum == weights_1_upto(board@, player_color, i as int),
            -10 * i <= sum <= 10 * i,
        decreases 64 - i,
    {
        let cost = tile_cost_1(Point::from_idx(i as i8));
        let t = board.0[i];
        if t == player_color {
            sum = sum + cost;
        } else if t == opposite {
            sum = sum - cost;
        }
        i += 1;
    }
    sum
}

/// Fine table evaluation: the weights of `player_color`'s cells minus those of
/// the opponent's.
pub fn static_eval_with_weights_2(board: &Board, player_color: Cell) -> (r: Score)
    requires
        is_color(player_color),
    ensures
        r == weights_2_upto(board@, player_color, 64),
{
    let opposite = player_color.opposite();
    let mut sum: Score = 0;
    let mut i: usize = 0;
    while i < 64
        invariant
            i <= 64,
            opposite == opposite_of(player_color),
            sum == weights_2_upto(board@, player_color, i as int),
            -410 * i <= sum <= 410 * i,
        decreases 64 - i,
    {
        let cost = tile_cost_2(Point::from_idx(i as i8));
        let t = board.0[i];
        if t == player_color {
            sum = sum + cost;
        } else if t == opposite {
            sum = sum - cost;
        }
        i += 1;
    }
    sum
}

/// Disc-difference evaluation is antisymmetric in the two colors.
pub proof fn lemma_static_eval_antisymmetric(b: Seq<Cell>)
    ensures
        count_of(b, Cell::Black) - count_of(b, Cell::White) == -(count_of(b, Cell::White) - count_of(
            b,
            Cell::Black,
        )),
{
}

/// Both table evaluations are antisymmetric in the two colors, on any board.
pub proof fn lemma_weights_antisymmetric(b: Seq<Cell>, n: int)
    ensures
        weights_1_upto(b, Cell::Black, n) == -weights_1_upto(b, Cell::White, n),
        weights_2_upto(b, Cell::Black, n) == -weights_2_upto(b, Cell::White, n),
    decreases n,
{
    if n > 0 {
        lemma_weights_antisymmetric(b, n - 1);
    }
}

/// Penalty for a run of the evaluated color hanging next to an open end of a
/// principal line.
pub const LINE_PENALTY: i32 = 86;

/// First index `j >= i` (below 6) at which line `l` does not hold `c`, else 6;
/// scanning from the first end.
pub open spec fn scan_from_first(l: Seq<Cell>, c: Cell, i: int) -> int
    decreases 6 - i,
{
    if i >= 6 || l[i] != c {
        i
    } else {
        scan_from_first(l, c, i + 1)
    }
}

/// As `scan_from_first`, scanning from the second end: position `i` is cell `7 - i`.
pub open spec fn scan_from_last(l: Seq<Cell>, c: Cell, i: int) -> int
    decreases 6 - i,
{
    if i >= 6 || l[7 - i] != c {
        i
    } else {
        scan_from_last(l, c, i + 1)
    }
}

/// The penalty at the first end of line `l`: the cell next to the empty end
/// holds `c`, and the run of `c` from there stops before the far side; doubled
/// when a disc of `c` follows the cell that stops the run.
pub open spec fn first_end_penalty(l: Seq<Cell>, c: Cell) -> int {
    if l[1] == c && l[0] == Cell::Empty {
        let i = scan_from_first(l, c, 2);
        if i != 6 {
            86 + if l[i + 1] == c {
                86int
            } else {
                0
            }
        } else {
            0
        }
    } else {
        0
    }
}

/// The penalty at the second end of line `l`, mirroring `first_end_penalty`.
pub open spec fn last_end_penalty(l: Seq<Cell>, c: Cell) -> int {
    if l[6] == c && l[7] == Cell::Empty {
        let i = scan_from_last(l, c, 2);
        if i != 6 {
            86 + if l[6 - i] == c {
                86int
            } else {
                0
            }
        } else {
            0
        }
    } else {
        0
    }
}

/// The cells of line `ml` on board `b`.
pub open spec fn line_of(b: Seq<Cell>, ml: MainLine) -> Seq<Cell> {
    Seq::new(8, |i: int| b[mainline_idx(ml, i)])
}

/// The hanging-run penalty of `c` on line `ml`.
pub open spec fn line_penalty_spec(b: Seq<Cell>, ml: MainLine, c: Cell) -> int {
    first_end_penalty(line_of(b, ml), c) + last_end_penalty(line_of(b, ml), c)
}

/// The hanging-run penalty of `my_color` on line `ml`, counted at each open end.
pub fn mainlines_penalty(board: &Board, ml: MainLine, my_color: Cell) -> (r: i32)
    ensures
        r == line_penalty_spec(board@, ml, my_color),
        0 <= r <= 344,
{
    let penalty = LINE_PENALTY;
    let line = board.mainline(ml);
    let ghost l = line_of(board@, ml);
    assert(line@ =~= l);
    let size: usize = 8;
    let mut count: i32 = 0;
    if line[1] == my_color && line[0].is_empty() {
        let mut i: usize = 2;
        while i != size - 2 && line[i] == my_color
            invariant
                2 <= i <= 6,
                size == 8,
                line@ == l,
                l.len() == 8,
                scan_from_first(l, my_color, 2) == scan_from_first(l, my_color, i as int),
            decreases 6 - i,
        {
            i += 1;
        }
        if i != size - 2 {
            count += penalty;
            if line[i + 1] == my_color {
                count += penalty;
            }
        }
    }
    if line[size - 2] == my_color && line[size - 1].is_empty() {
        let mut i: usize = 2;
        while i != size - 2 && line[size - 1 - i] == my_color
            invariant
                2 <= i <= 6,
                size == 8,
                line@ == l,
                l.len() == 8,
                scan_from_last(l, my_color, 2) == scan_from_last(l, my_color, i as int),
            decreases 6 - i,
        {
            i += 1;
        }
        if i != size - 2 {
            count += penalty;
            if line[size - 2 - i] == my_color {
                count += penalty;
            }
        }
    }
    count
}

/// Half of `x`, rounded toward zero.
pub open spec fn half(x: int) -> int {
    if x >= 0 {
        x / 2
    } else {
        -((-x) / 2)
    }
}

/// Mobility-weighted value of cell `i`: its fine weight plus 8 per empty
/// neighbour, a cell without empty neighbours counting as if it had 6.
pub open spec fn heu_of(b: Seq<Cell>, i: int) -> int {
    let a = empty_neighbours(b, i);
    tile_cost_2_spec(i) + 8 * if a == 0 {
        6
    } else {
        a
    }
}

/// What cell `i` adds to `sev3` for `c`: its value for a disc of `c`, minus it
/// for a disc of the opponent, nothing for the black hole. An empty cell
/// counts half its value against black and for white at even search depth,
/// and the other way round at odd depth.
pub open spec fn sev3_cell(b: Seq<Cell>, c: Cell, is_depth_even: bool, i: int) -> int {
    let heu = heu_of(b, i);
    if b[i] == Cell::Empty {
        if is_depth_even == (c == Cell::Black) {
            -half(heu)
        } else {
            half(heu)
        }
    } else if b[i] == c {
        heu
    } else if b[i] == Cell::BlackHole {
        0
    } else {
        -heu
    }
}

/// Sum of `sev3_cell` over the first `n` cells.
pub open spec fn sev3_cells_upto(b: Seq<Cell>, c: Cell, is_depth_even: bool, n: int) -> int
    decreases n,
{
    if n <= 0 {
        0
    } else {
        sev3_cells_upto(b, c, is_depth_even, n - 1) + sev3_cell(b, c, is_depth_even, n - 1)
    }
}

/// Sum of the hanging-run penalties of `c` over the six principal lines.
pub open spec fn lines_penalty(b: Seq<Cell>, c: Cell) -> int {
    line_penalty_spec(b, MainLine::Top, c) + line_penalty_spec(b, MainLine::Left, c) + line_penalty_spec(
        b,
        MainLine::Right,
        c,
    ) + line_penalty_spec(b, MainLine::Bottom, c) + line_penalty_spec(b, MainLine::TopLeftBottomRight, c)
        + line_penalty_spec(b, MainLine::TopRightBottomLeft, c)
}

/// The full evaluation of `b` for `c`: mobility-weighted cell values with the
/// parity adjustment for empty cells, minus the principal-line penalties of
/// `c`'s hanging runs, plus those of the opponent's.
pub open spec fn sev3_spec(b: Seq<Cell>, c: Cell, is_depth_even: bool) -> int {
    sev3_cells_upto(b, c, is_depth_even, 64) - lines_penalty(b, c) + lines_penalty(b, opposite_of(c))
}

/// A bound on the magnitude of `sev3`: 64 cells of at most 474 and six
/// lines of at most 344 for one side.
pub open spec fn sev3_bound() -> int {
    32400int
}

/// The full evaluation of `board` for `color`; see `sev3_spec`.
pub fn sev3(board: &Board, color: Cell, is_depth_even: bool) -> (r: Score)
    requires
        is_color(color),
    ensures
        r == sev3_spec(board@, color, is_depth_even),
        -sev3_bound() <= r <= sev3_bound(),
{
    let mut count: i32 = 0;
    let mut i: usize = 0;
    while i < 64
        invariant
            i <= 64,
            count == sev3_cells_upto(board@, color, is_depth_even, i as int),
            -474 * i <= count <= 474 * i,
        decreases 64 - i,
    {
        let p = Point::from_idx(i as i8);
        let mut a = board.nempty_neighbours(p);
        if a == 0 {
            a = 6;
        }
        let heu = tile_cost_2(p) + 8 * a;
        let tile = board.at(p);
        if tile.is_empty() {
            let h = if heu >= 0 {
                heu / 2
            } else {
                -((-heu) / 2)
            };
            let against = if color == Cell::Black {
                is_depth_even
            } else {
                !is_depth_even
            };
            if against {
                count -= h;
            } else {
                count += h;
            }
        } else if tile == color {
            count += heu;
        } else if tile != Cell::BlackHole {
            count -= heu;
        }
        i += 1;
    }
    let opponent = color.opposite();
    let mut own_lines: i32 = 0;
    own_lines += mainlines_penalty(board, MainLine::Top, color);
    own_lines += mainlines_penalty(board, MainLine::Left, color);
    own_lines += mainlines_penalty(board, MainLine::Right, color);
    own_lines += mainlines_penalty(board, MainLine::Bottom, color);
    own_lines += mainlines_penalty(board, MainLine::TopLeftBottomRight, color);
    own_lines += mainlines_penalty(board, MainLine::TopRightBottomLeft, color);
    let mut their_lines: i32 = 0;
    their_lines += mainlines_penalty(board, MainLine::Top, opponent);
    their_lines += mainlines_penalty(board, MainLine::Left, opponent);
    their_lines += mainlines_penalty(board, MainLine::Right, opponent);
    their_lines += mainlines_penalty(board, MainLine::Bottom, opponent);
    their_lines += mainlines_penalty(board, MainLine::TopLeftBottomRight, opponent);
    their_lines += mainlines_penalty(board, MainLine::TopRightBottomLeft, opponent);
    count = count - own_lines + their_lines;
    count
}

/// The full evaluation is antisymmetric in the two colors on every board:
/// cell values, the parity adjustment and the line penalties all change sign
/// with the evaluated color.
pub proof fn lemma_sev3_antisymmetric(b: Seq<Cell>, is_depth_even: bool)
    requires
        b.len() == 64,
    ensures
        sev3_spec(b, Cell::Black, is_depth_even) == -sev3_spec(b, Cell::White, is_depth_even),
{
    lemma_sev3_cells_antisymmetric(b, is_depth_even, 64);
}

proof fn lemma_sev3_cells_antisymmetric(b: Seq<Cell>, is_depth_even: bool, n: int)
    requires
        n <= 64,
    ensures
        sev3_cells_upto(b, Cell::Black, is_depth_even, n) == -sev3_cells_upto(b, Cell::White, is_depth_even, n),
    decreases n,
{
    if n > 0 {
        lemma_sev3_cells_antisymmetric(b, is_depth_even, n - 1);
    }
}

} // verus!
