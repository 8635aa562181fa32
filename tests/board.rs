use reversi_engine::board::{Board, MainLine};
use reversi_engine::cell::{Cell, TileIdx};
use reversi_engine::point::Point;
use reversi_engine::text::repr_board;
use rand::SeedableRng;
use reversi_engine::cell::Cell::{Black, BlackHole, Empty, White};

#[test]
fn board_test_board_count() {
    let board = Board::initial(Some(Point::from_xy(0, 0)));
    assert_eq!(board.count(Cell::Black), 2);
    assert_eq!(board.count(Cell::White), 2);
}

#[test]
fn board_test_board_count_move1() {
    let mut board = Board::initial(Some(Point::from_xy(0, 0)));
    let allowed_moves = board.allowed_moves(Cell::White);
    board.apply_move(allowed_moves.first().unwrap(), Cell::White);
    assert_eq!(board.count(Cell::Black), 1);
    assert_eq!(board.count(Cell::White), 4);
}

#[test]
fn board_test_board_count_move2() {
    let board = Board::initial(Some(Point::from_xy(0, 0)));
    let allowed_moves = board.allowed_moves(Cell::Black);
    let board = board.with_move(allowed_moves.first().unwrap(), Cell::Black);
    assert_eq!(board.count(Cell::White), 1);
    assert_eq!(board.count(Cell::Black), 4);
}

#[test]
fn board_test_board_indexes() {
    let b = Board::initial(Some(Point::from_xy(1, 1)));
    for (i, _) in b.0.iter().enumerate() {
        let tile_index = Point::from_idx(i as TileIdx).unmirror8().to_idx();
        assert!([0, 1, 2, 3, 9, 10, 11, 18, 19, 27].contains(&tile_index));
    }
}

#[test]
fn test_empty_neighbours() {
    let board = Board::initial(Some(Point::from_xy(0, 0)));
    assert_eq!(board.nempty_neighbours(Point::from_xy(3, 4)), 5);
    assert_eq!(board.nempty_neighbours(Point::from_xy(5, 5)), 7);
}

#[test]
fn test_board_mainline() {
    let board = Board::initial(Some(Point::from_xy(0, 0)));
    assert_eq!(
        board.mainline(MainLine::TopLeftBottomRight),
        vec![BlackHole, Empty, Empty, White, White, Empty, Empty, Empty],
    );
    assert_eq!(
        board.mainline(MainLine::Top),
        vec![BlackHole, Empty, Empty, Empty, Empty, Empty, Empty, Empty],
    );
    assert_eq!(
        board.mainline(MainLine::Bottom),
        vec![Empty, Empty, Empty, Empty, Empty, Empty, Empty, Empty],
    );
    assert_eq!(
        board.mainline(MainLine::TopRightBottomLeft),
        vec![Empty, Empty, Empty, Black, Black, Empty, Empty, Empty],
    );
}

#[test]
fn opening_black_has_four_moves_each_flipping_one() {
    let board = Board::initial(Some(Point::from_xy(0, 7)));
    let moves = board.allowed_moves(Cell::Black);
    assert_eq!(moves.len(), 4);
    for m in moves.iter() {
        assert_eq!(m.1.len(), 1);
        assert_eq!(board.at(m.1[0]), Cell::White);
        assert_eq!(board.at(m.0), Cell::Empty);
    }
    let targets: Vec<TileIdx> = moves.iter().map(|m| m.0.to_idx()).collect();
    assert_eq!(targets, vec![19, 26, 37, 44]);
}

#[test]
fn opening_without_black_hole_also_has_four_moves() {
    let board = Board::initial(None);
    assert_eq!(board.count(Cell::BlackHole), 0);
    assert_eq!(board.count(Cell::Empty), 60);
    let moves = board.allowed_moves(Cell::White);
    assert_eq!(moves.len(), 4);
    assert!(moves.iter().all(|m| m.1.len() == 1));
}

#[test]
fn applied_moves_flip_only_opponent_discs_and_spare_the_black_hole() {
    let board = Board::try_from(
        "________
         ________
         __BWW___
         ___WB___
         ___WH___
         ___B____
         ________
         ________"
            .to_string(),
    )
    .unwrap();
    for color in [Cell::Black, Cell::White] {
        let opp = color.opposite();
        for m in board.allowed_moves(color).iter() {
            let after = board.with_move(m, color);
            assert_eq!(after.at(m.0), color);
            for f in m.1.iter() {
                assert_eq!(board.at(*f), opp);
                assert_eq!(after.at(*f), color);
            }
            assert_eq!(after.count(Cell::BlackHole), 1);
            assert_eq!(after.count(Cell::Empty), board.count(Cell::Empty) - 1);
        }
    }
}

#[test]
fn black_hole_blocks_a_ray() {
    // White at D4 with black on E4 and the hole beyond: no move to the east.
    let board = Board::try_from(
        "________
         ________
         ________
         ___BWH__
         ________
         ________
         ________
         ________"
            .to_string(),
    )
    .unwrap();
    let moves = board.allowed_moves(Cell::White);
    assert_eq!(moves.len(), 1);
    assert_eq!(moves[0].0, Point::from_xy(2, 3));
    assert_eq!(moves[0].1, vec![Point::from_xy(3, 3)]);
}

#[test]
fn move_merges_runs_of_several_directions() {
    let board = Board::try_from(
        "W_W_____
         _B______
         _BB_____
         _W______
         ________
         ________
         ________
         ________"
            .to_string(),
    )
    .unwrap();
    let moves = board.allowed_moves(Cell::White);
    let m = moves.iter().find(|m| m.0 == Point::from_xy(1, 0)).unwrap();
    let mut flipped: Vec<TileIdx> = m.1.iter().map(|p| p.to_idx()).collect();
    flipped.sort();
    assert_eq!(flipped, vec![9, 17]);
    let m2 = moves.iter().find(|m| m.0 == Point::from_xy(3, 3)).unwrap();
    let flipped2: Vec<TileIdx> = m2.1.iter().map(|p| p.to_idx()).collect();
    assert_eq!(flipped2, vec![18, 9]);
}

#[test]
fn try_from_rejects_bad_text() {
    match Board::try_from("BW\nX".to_string()) {
        Err(msg) => assert_eq!(msg, "Unexpected char inside board: X"),
        Ok(_) => panic!("accepted a bad character"),
    }
    assert!(Board::try_from("B".repeat(65)).is_err());
    let short = Board::try_from("B W\n_H".to_string()).unwrap();
    assert_eq!(short.0[0], Cell::Black);
    assert_eq!(short.0[1], Cell::White);
    assert_eq!(short.0[2], Cell::Empty);
    assert_eq!(short.0[3], Cell::BlackHole);
    assert_eq!(short.count(Cell::Empty), 61);
}

#[test]
fn repr_board_draws_rows() {
    let board = Board::initial(Some(Point::from_xy(0, 0)));
    let text = repr_board(&board.0);
    let lines: Vec<&str> = text.split('\n').collect();
    assert_eq!(lines.len(), 10);
    assert_eq!(lines[0], "   A B C D E F G H");
    assert_eq!(lines[1], format!(" 1BH{}", "▒▒".repeat(7)));
    assert_eq!(lines[4], format!(" 4{}██░░{}", "▒▒".repeat(3), "▒▒".repeat(3)));
    assert_eq!(lines[5], format!(" 5{}░░██{}", "▒▒".repeat(3), "▒▒".repeat(3)));
    assert_eq!(lines[8], format!(" 8{}", "▒▒".repeat(8)));
    assert_eq!(lines[9], "");
}

#[test]
fn random_playouts_end_the_game() {
    let board = Board::initial(Some(Point::from_xy(0, 0)));
    let mut rng = rand::rngs::StdRng::seed_from_u64(7);
    for _ in 0..5 {
        let r = Board::simauto(board, Cell::Black, false, &mut rng);
        assert!(r.is_over());
        let mv = board.allowed_moves(Cell::Black)[0].clone();
        let r2 = Board::sim(&board, mv, Cell::Black, true, &mut rng);
        assert!(r2.is_over());
    }
}

#[test]
fn playout_step_plays_the_drawn_move_or_passes_first() {
    let board = Board::initial(Some(Point::from_xy(0, 0)));
    let allowed = board.allowed_moves(Cell::Black);
    let (next, to_move) = board.playout_step(Cell::Black, &allowed, 2);
    assert_eq!(next.0, board.with_move(&allowed[2], Cell::Black).0);
    assert_eq!(to_move, Cell::White);
    // White has no move here; black plays its only move after white passes.
    let stuck = Board::try_from("BBBBBBW_".to_string() + &"B".repeat(56)).unwrap();
    let none = stuck.allowed_moves(Cell::White);
    assert!(none.is_empty());
    let (after, to_move) = stuck.playout_step(Cell::White, &none, 0);
    assert_eq!(after.count(Cell::Black), 64);
    assert_eq!(to_move, Cell::White);
}

#[test]
fn playout_on_a_finished_board_scores_that_board() {
    let mut rng = rand::rngs::StdRng::seed_from_u64(11);
    let done = Board::try_from("B".repeat(40) + &"W".repeat(24)).unwrap();
    assert_eq!(Board::simauto(done, Cell::White, false, &mut rng), reversi_engine::cell::EndState::BlackWon);
    assert_eq!(Board::simauto(done, Cell::Black, true, &mut rng), reversi_engine::cell::EndState::WhiteWon);
}
