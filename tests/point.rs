use reversi_engine::cell::{CLIMove, Cell, Chan};
use reversi_engine::point::Point;
use reversi_engine::cell::{max_of, min_of, EndState};

#[test]
fn mirror1() {
    let p = Point::from_xy(6, 5);
    assert_eq!(p.unmirror4(), Point::from_xy(1, 2));
    assert_eq!(p.unmirror8(), Point::from_xy(2, 1));
}

#[test]
fn algebraic_notation_round_trips() {
    for i in 0..64 {
        let p = Point::from_idx(i);
        assert_eq!(Point::from_ab(&p.to_ab()), Some(p));
    }
    assert_eq!(Point::from_xy(3, 2).to_ab(), "D3");
    assert_eq!(Point::from_ab("A1"), Some(Point::from_xy(0, 0)));
    assert_eq!(Point::from_ab("H8"), Some(Point::from_xy(7, 7)));
    assert_eq!(Point::from_ab("I1"), None);
    assert_eq!(Point::from_ab("A9"), None);
    assert_eq!(Point::from_ab("a1"), None);
    assert_eq!(Point::from_ab("A"), None);
    assert_eq!(Point::from_ab(""), None);
}

#[test]
fn coordinates_and_mirrors() {
    let p = Point::from_xy(2, 5);
    assert_eq!(p.to_idx(), 42);
    assert_eq!(p.usize(), 42);
    assert_eq!(p.to_xy(), (2, 5));
    let m = p.mirror();
    assert_eq!(m[0], p);
    assert_eq!(m[1], Point::from_xy(5, 5));
    assert_eq!(m[2], Point::from_xy(2, 2));
    assert_eq!(m[3], Point::from_xy(5, 2));
    assert_eq!(Point::from_xy(7, 0).unmirror8(), Point::from_xy(0, 0));
}

#[test]
fn channel_tokens() {
    assert_eq!(Chan::parse("pass"), Some(CLIMove::Pass));
    assert_eq!(Chan::parse("black"), Some(CLIMove::Color(Cell::Black)));
    assert_eq!(Chan::parse("white"), Some(CLIMove::Color(Cell::White)));
    assert_eq!(Chan::parse("E6"), Some(CLIMove::Coord(Point::from_xy(4, 5))));
    assert_eq!(Chan::parse("pas"), None);
    assert_eq!(Chan::format(&CLIMove::Pass), Some("pass".to_string()));
    assert_eq!(Chan::format(&CLIMove::Coord(Point::from_xy(4, 5))), Some("E6".to_string()));
    assert_eq!(Chan::format(&CLIMove::Color(Cell::Black)), None);
    assert_eq!(CLIMove::Coord(Point::from_xy(1, 1)).coord(), Point::from_xy(1, 1));
    assert_eq!(CLIMove::Color(Cell::White).color(), Cell::White);
}

#[test]
fn cells_and_outcomes() {
    assert_eq!(Cell::Black.opposite(), Cell::White);
    assert_eq!(Cell::White.opposite(), Cell::Black);
    assert!(Cell::Black.is_disc());
    assert!(!Cell::BlackHole.is_disc());
    assert!(Cell::Empty.is_empty());
    assert!(!EndState::Unknown.is_over());
    assert!(EndState::Tie.is_over());
    assert!(EndState::BlackWon.won(Cell::Black));
    assert!(!EndState::BlackWon.won(Cell::White));
    assert!(!EndState::Tie.won(Cell::White));
    assert_eq!(max_of(3, -4), 3);
    assert_eq!(min_of(3, -4), -4);
}
