use reversi_engine::board::Board;
use reversi_engine::cell::{Cell, EndState};
use reversi_engine::game::{find_move, wincheck, MatchState, Step};
use reversi_engine::point::Point;

#[test]
fn utils_wincheck_1() {
    let s = "BBBBBBBB
             BBBBBBBB
             BBBBBBBB
             BBBBBBBB
             BBBBBBBB
             BBBBBBBB
             BBBBBBBB
             BBBBBBBB";
    let b = Board::try_from(s.to_string()).unwrap();
    assert_eq!(wincheck(&b, &b.allowed_moves(Cell::White), true, Cell::Black), EndState::WhiteWon);
}

#[test]
fn utils_wincheck_2() {
    let s = "BBBBBBBB
             BBBBBBBB
             BBBBB___
             BBBBB__W
             BBBBBB__
             BBBBBB__
             BBBBBBBB
             BBBBBBBB";
    let b = Board::try_from(s.to_string()).unwrap();
    let win = wincheck(&b, &b.allowed_moves(Cell::White), true, Cell::Black);
    assert!(win.is_over());
    assert_eq!(win, EndState::WhiteWon);
}

#[test]
fn utils_wincheck_3() {
    let s = "BBBBBBBB
             BBBBBBBB
             BBBBBBBB
             BBBBBBBB
             WWWWWWWW
             WWWWWWWW
             WWWWWWWW
             WWWWWWWW";
    let b = Board::try_from(s.to_string()).unwrap();
    let win = wincheck(&b, &b.allowed_moves(Cell::White), true, Cell::Black);
    assert!(win.is_over());
    assert_eq!(win, EndState::Tie);
}

#[test]
fn mod_wincheck_1() {
    let s = "BBBBBBBB
             BBBBBBBB
             BBBBBBBB
             BBBBBBBB
             BBBBBBBB
             BBBBBBBB
             BBBBBBBB
             BBBBBBBB";
    let b = Board::try_from(s.to_string()).unwrap();
    assert_eq!(wincheck(&b, &b.allowed_moves(Cell::White), true, Cell::Black), EndState::WhiteWon);
}

#[test]
fn mod_wincheck_2() {
    let s = "BBBBBBBB
             BBBBBBBB
             BBBBB___
             BBBBB__W
             BBBBBB__
             BBBBBB__
             BBBBBBBB
             BBBBBBBB";
    let b = Board::try_from(s.to_string()).unwrap();
    let win = wincheck(&b, &b.allowed_moves(Cell::White), true, Cell::Black);
    assert!(win.is_over());
    assert_eq!(win, EndState::WhiteWon);
}

#[test]
fn mod_wincheck_3() {
    let s = "BBBBBBBB
             BBBBBBBB
             BBBBBBBB
             BBBBBBBB
             WWWWWWWW
             WWWWWWWW
             WWWWWWWW
             WWWWWWWW";
    let b = Board::try_from(s.to_string()).unwrap();
    let win = wincheck(&b, &b.allowed_moves(Cell::White), true, Cell::Black);
    assert!(win.is_over());
    assert_eq!(win, EndState::Tie);
}

fn forty_black_24_white() -> Board {
    Board::try_from("B".repeat(40) + &"W".repeat(24)).unwrap()
}

#[test]
fn terminal_board_is_scored_by_disc_count() {
    let b = forty_black_24_white();
    assert_eq!(b.count(Cell::Black), 40);
    assert_eq!(b.count(Cell::White), 24);
    assert_eq!(wincheck(&b, &b.allowed_moves(Cell::Black), false, Cell::Black), EndState::BlackWon);
    assert_eq!(wincheck(&b, &b.allowed_moves(Cell::Black), true, Cell::Black), EndState::WhiteWon);
    let even = Board::try_from("B".repeat(32) + &"W".repeat(32)).unwrap();
    assert_eq!(wincheck(&even, &even.allowed_moves(Cell::White), false, Cell::White), EndState::Tie);
    assert_eq!(wincheck(&even, &even.allowed_moves(Cell::White), true, Cell::White), EndState::Tie);
}

#[test]
fn game_goes_on_while_a_side_can_move() {
    let b = Board::initial(Some(Point::from_xy(0, 0)));
    assert_eq!(wincheck(&b, &b.allowed_moves(Cell::Black), false, Cell::Black), EndState::Unknown);
}

#[test]
fn side_without_moves_passes() {
    // White has no move; black can take H1 by flipping G1.
    let board = Board::try_from("BBBBBBW_".to_string() + &"B".repeat(56)).unwrap();
    assert_eq!(board.allowed_moves(Cell::White).len(), 0);
    assert_eq!(board.allowed_moves(Cell::Black).len(), 1);
    let mut game = MatchState { board, my_color: Cell::Black, current_color: Cell::White, is_anti: false };
    assert_eq!(game.status(), EndState::Unknown);
    assert!(matches!(game.next_step(), Step::OpponentPass));
    game.pass();
    assert_eq!(game.current_color, Cell::Black);
    assert_eq!(game.board.0, board.0);
    match game.next_step() {
        Step::SelfMove(moves) => {
            assert_eq!(moves.len(), 1);
            let mv = find_move(&moves, Point::from_xy(7, 0)).unwrap();
            game.play(&mv);
        }
        other => panic!("expected a move, got {:?}", other),
    }
    assert_eq!(game.current_color, Cell::White);
    assert!(matches!(game.next_step(), Step::Finished(EndState::BlackWon)));
}

#[test]
fn match_starts_with_black_to_move() {
    let game = MatchState::new(None, Cell::White, true);
    assert_eq!(game.current_color, Cell::Black);
    match game.next_step() {
        Step::OpponentMove(moves) => {
            assert_eq!(moves.len(), 4);
            assert!(find_move(&moves, Point::from_xy(0, 0)).is_none());
            assert!(find_move(&moves, Point::from_xy(3, 2)).is_some());
        }
        other => panic!("expected the opponent to move, got {:?}", other),
    }
}
