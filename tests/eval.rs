use reversi_engine::board::{Board, MainLine};
use reversi_engine::cell::Cell;
use reversi_engine::eval::{
    mainlines_penalty, sev3, static_eval, static_eval_with_weights_1, static_eval_with_weights_2, tile_cost_2,
    BAD_EDGE, GOOD_CORNER,
};
use reversi_engine::point::Point;

#[test]
fn sev_test_score_1() {
    let mut b = Board::initial(Some(Point::from_xy(1, 1)));
    b.place(Point::from_xy(0, 0), Cell::Black);
    b.place(Point::from_xy(6, 0), Cell::Black);
    assert_eq!(static_eval_with_weights_1(&b, Cell::Black), BAD_EDGE + GOOD_CORNER);
}

#[test]
fn fine_weights_follow_the_table() {
    let table: [[i32; 8]; 8] = [
        [410, 23, 13, 8, 8, 13, 23, 410],
        [23, -75, -22, -51, -51, -22, -75, 23],
        [13, -22, 41, 3, 3, 41, -22, 13],
        [8, -51, 3, -87, -87, 3, -51, 8],
        [8, -51, 3, -87, -87, 3, -51, 8],
        [13, -22, 41, 3, 3, 41, -22, 13],
        [23, -75, -22, -51, -51, -22, -75, 23],
        [410, 23, 13, 8, 8, 13, 23, 410],
    ];
    for y in 0..8 {
        for x in 0..8 {
            assert_eq!(tile_cost_2(Point::from_xy(x, y)), table[y as usize][x as usize]);
        }
    }
}

#[test]
fn evaluations_are_antisymmetric_without_black_hole() {
    let mut b = Board::initial(None);
    b.place(Point::from_xy(0, 0), Cell::Black);
    b.place(Point::from_xy(7, 1), Cell::White);
    b.place(Point::from_xy(2, 5), Cell::White);
    assert_eq!(static_eval(&b, Cell::Black), -static_eval(&b, Cell::White));
    assert_eq!(static_eval(&b, Cell::Black), -1);
    assert_eq!(
        static_eval_with_weights_1(&b, Cell::Black),
        -static_eval_with_weights_1(&b, Cell::White)
    );
    assert_eq!(
        static_eval_with_weights_2(&b, Cell::Black),
        -static_eval_with_weights_2(&b, Cell::White)
    );
    // the centre cancels out; the black corner counts 410, the white cells 23 and 41
    assert_eq!(static_eval_with_weights_2(&b, Cell::Black), 410 - 23 - 41);
    let full = Board::try_from("BW".repeat(32)).unwrap();
    assert_eq!(sev3(&full, Cell::Black, true), -sev3(&full, Cell::White, true));
    assert_eq!(sev3(&full, Cell::Black, false), -sev3(&full, Cell::White, false));
}

#[test]
fn full_evaluation_is_antisymmetric_with_empty_cells() {
    let opening = Board::initial(None);
    let mut corner = Board::try_from("B".repeat(64)).unwrap();
    corner.place(Point::from_xy(0, 0), Cell::Empty);
    let hanging = Board::try_from("_BBW_BB_".to_string() + &"_".repeat(48) + "H_WW____").unwrap();
    for b in [opening, corner, hanging].iter() {
        for &even in [false, true].iter() {
            assert_eq!(sev3(b, Cell::Black, even), -sev3(b, Cell::White, even));
        }
    }
}

#[test]
fn line_penalty_counts_a_hanging_run() {
    // Top row: empty corner, then black on B1 and C1, white on D1.
    let b = Board::try_from("_BBW____".to_string()).unwrap();
    assert_eq!(mainlines_penalty(&b, MainLine::Top, Cell::Black), 86);
    // The run is followed by a black disc after the stopping cell: doubled.
    let b2 = Board::try_from("_BBWB___".to_string()).unwrap();
    assert_eq!(mainlines_penalty(&b2, MainLine::Top, Cell::Black), 172);
    assert_eq!(mainlines_penalty(&b2, MainLine::Top, Cell::White), 0);
    let b3 = Board::initial(None);
    assert_eq!(mainlines_penalty(&b3, MainLine::TopLeftBottomRight, Cell::White), 0);
}

/// The cell part of the full evaluation, summed directly.
fn cell_values(b: &Board, c: Cell, even: bool) -> i32 {
    let mut sum = 0;
    for i in 0..64 {
        let p = Point::from_idx(i);
        let mut a = b.nempty_neighbours(p);
        if a == 0 {
            a = 6;
        }
        let heu = tile_cost_2(p) + 8 * a;
        let t = b.at(p);
        if t == Cell::Empty {
            let against = if c == Cell::Black { even } else { !even };
            sum += if against { -(heu / 2) } else { heu / 2 };
        } else if t == c {
            sum += heu;
        } else if t != Cell::BlackHole {
            sum -= heu;
        }
    }
    sum
}

#[test]
fn hanging_run_lowers_the_full_evaluation() {
    let lines = [
        MainLine::Top,
        MainLine::Left,
        MainLine::Right,
        MainLine::Bottom,
        MainLine::TopLeftBottomRight,
        MainLine::TopRightBottomLeft,
    ];
    let open = Board::try_from("_BBW_BB_".to_string() + &"_".repeat(48) + "H_______").unwrap();
    let penalty: i32 = lines.iter().map(|&ml| mainlines_penalty(&open, ml, Cell::Black)).sum();
    assert_eq!(penalty, 86 + 86);
    for &even in [false, true].iter() {
        assert_eq!(sev3(&open, Cell::Black, even), cell_values(&open, Cell::Black, even) - penalty);
        assert_eq!(sev3(&open, Cell::White, even), cell_values(&open, Cell::White, even) + penalty);
    }
}

#[test]
fn black_hole_counts_nothing_in_the_full_evaluation() {
    let full = Board::try_from("BW".repeat(32)).unwrap();
    let mut holed = full;
    holed.place(Point::from_xy(0, 0), Cell::BlackHole);
    // the corner held black: 410 plus 6 * 8 for a cell without empty neighbours
    assert_eq!(sev3(&full, Cell::Black, true) - sev3(&holed, Cell::Black, true), 410 + 48);
    assert_eq!(sev3(&full, Cell::White, true) - sev3(&holed, Cell::White, true), -(410 + 48));
}
