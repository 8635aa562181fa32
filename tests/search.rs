use reversi_engine::board::Board;
use reversi_engine::cell::{Cell, EndState, PlayerMove};
use reversi_engine::eval::sev3;
use reversi_engine::mcts::{choose_by_ratio, mcts_search, record_result, root_trees};
use reversi_engine::minimax::{first_best, MinimaxBot};
use reversi_engine::point::Point;
use reversi_engine::tree::{Node, Tree};
use rand::SeedableRng;

/// Full-width negamax without pruning, written out for comparison.
fn naive(bot: &MinimaxBot, board: Board, depth: usize, color: Cell) -> i32 {
    let moves = board.allowed_moves(color);
    if depth == 0 || moves.is_empty() {
        let e = sev3(&board, bot.game.my_color, bot.max_tree_depth % 2 == 0);
        let own = if color == bot.game.my_color { e } else { -e };
        return if bot.game.is_anti { -own } else { own };
    }
    moves
        .iter()
        .map(|m| -naive(bot, board.with_move(m, color), depth - 1, color.opposite()))
        .max()
        .unwrap()
}

fn small_position() -> Board {
    Board::try_from(
        "________
         ________
         __WBB___
         __BWB___
         __BBW___
         ___W____
         ________
         _______H"
            .to_string(),
    )
    .unwrap()
}

#[test]
fn pruning_keeps_the_full_width_value() {
    for &anti in [false, true].iter() {
        for depth in 0..4 {
            let bot = MinimaxBot::new(None, Cell::White, depth, anti);
            let board = small_position();
            for &color in [Cell::Black, Cell::White].iter() {
                let pruned = bot.negamax(board, depth, -i32::MAX, i32::MAX, color);
                assert_eq!(pruned, naive(&bot, board, depth, color));
            }
        }
    }
}

#[test]
fn pruned_result_is_bounded_outside_the_window() {
    let bot = MinimaxBot::new(None, Cell::Black, 2, false);
    let board = small_position();
    let v = naive(&bot, board, 2, Cell::Black);
    let low = bot.negamax(board, 2, v + 5, v + 100, Cell::Black);
    assert!(low <= v + 5 && low >= v);
    let high = bot.negamax(board, 2, v - 100, v - 5, Cell::Black);
    assert!(high >= v - 5 && high <= v);
}

fn root_score(bot: &MinimaxBot, m: &PlayerMove) -> i32 {
    let me = bot.game.my_color;
    -naive(bot, bot.game.board.with_move(m, me), bot.max_tree_depth, me.opposite())
}

#[test]
fn negamax_root_picks_the_first_best_move() {
    for &anti in [false, true].iter() {
        let mut bot = MinimaxBot::new(Some(Point::from_xy(7, 7)), Cell::Black, 2, anti);
        bot.game.board = small_position();
        let chosen = bot.run_negamax();
        let moves = bot.game.board.allowed_moves(Cell::Black);
        let scores: Vec<i32> = moves.iter().map(|m| root_score(&bot, m)).collect();
        let best = *scores.iter().max().unwrap();
        let first = scores.iter().position(|&s| s == best).unwrap();
        assert_eq!(chosen, moves[first]);
    }
}

#[test]
fn single_move_is_played_without_search() {
    let board = Board::try_from("BBBBBBW_".to_string() + &"B".repeat(56)).unwrap();
    let mut bot = MinimaxBot::new(None, Cell::Black, 3, false);
    bot.game.board = board;
    let m = bot.run_negamax();
    assert_eq!(m.0, Point::from_xy(7, 0));
    assert_eq!(m.1, vec![Point::from_xy(6, 0)]);
}

fn uct(c: f64) -> impl Fn(u64, u64, u64) -> u64 {
    move |parent: u64, wins: u64, visits: u64| {
        let v = visits as f64;
        let score = wins as f64 / v + c * ((parent as f64).ln() / v).sqrt();
        score.to_bits()
    }
}

#[test]
fn larger_budget_never_lowers_chosen_root_visits() {
    let board = Board::initial(Some(Point::from_xy(0, 0)));
    let rank = uct(2f64.sqrt());
    let mut last = 0;
    for &budget in [0u64, 1, 5, 20, 60].iter() {
        let (idx, scores) = mcts_search(&board, Cell::Black, budget, &rank, false, 42);
        assert_eq!(scores.len(), 4);
        assert!(idx < 4);
        assert!(scores.iter().all(|s| s.1 == budget && s.0 <= s.1));
        assert!(scores[idx].1 >= last);
        last = scores[idx].1;
    }
}

#[test]
fn search_is_repeatable_for_a_seed() {
    let board = Board::initial(Some(Point::from_xy(0, 0)));
    let rank = uct(1.0);
    let a = mcts_search(&board, Cell::White, 30, &rank, true, 9);
    let b = mcts_search(&board, Cell::White, 30, &rank, true, 9);
    assert_eq!(a, b);
}

#[test]
fn ratio_choice_prefers_visited_roots() {
    assert_eq!(choose_by_ratio(&vec![(0, 0), (0, 3), (1, 2)]), 2);
    assert_eq!(choose_by_ratio(&vec![(5, 0), (0, 3)]), 1);
    assert_eq!(choose_by_ratio(&vec![(0, 0), (0, 0)]), 0);
    assert_eq!(choose_by_ratio(&vec![(1, 2), (2, 4), (3, 5)]), 2);
    assert_eq!(choose_by_ratio(&vec![(1, 2), (2, 4)]), 0);
}

#[test]
fn tree_rounds_expand_and_count() {
    let board = Board::initial(Some(Point::from_xy(0, 0)));
    let mut trees = root_trees(&board, Cell::Black);
    assert_eq!(trees.len(), 4);
    let mut rng = rand::rngs::StdRng::seed_from_u64(3);
    let rank = uct(2f64.sqrt());
    let tree = &mut trees[0];
    assert_eq!(tree.nodes[0].color, Cell::White);
    for round in 1..=12u64 {
        assert!(tree.has_room());
        tree.iterate(&rank, false, &mut rng);
        assert_eq!(tree.root_counts().1, round);
    }
    // The first round expands the root fully, one child per white move, and
    // plays out from one of them: every round visits a child.
    let white_moves = tree.nodes[0].board.allowed_moves(Cell::White).len();
    assert_eq!(tree.nodes[0].children.len(), white_moves);
    let total: u64 = tree.nodes[0].children.iter().map(|&c| tree.nodes[c].nvisits).sum();
    assert_eq!(total, 12);
    let best = Node::best_child(tree, 0);
    assert!(tree.nodes[0].children.contains(&best));
}

#[test]
fn unvisited_child_is_selected_first() {
    let board = Board::initial(None);
    let mut tree = Tree::new(board, Cell::Black, None);
    let mut rng = rand::rngs::StdRng::seed_from_u64(1);
    let picked = Node::expansion(&mut tree, 0, &mut rng);
    assert!(picked >= 1 && picked <= 4);
    assert_eq!(tree.nodes.len(), 5);
    Node::back_propagate(&mut tree, 3, EndState::BlackWon);
    assert_eq!(tree.nodes[3].nvisits, 1);
    assert_eq!(tree.nodes[3].nwins, 1);
    assert_eq!(tree.nodes[0].nvisits, 1);
    assert_eq!(tree.nodes[0].nwins, 0);
    let rank = uct(1.0);
    assert_eq!(Node::select_child(&tree, 0, &rank), 1);
    assert_eq!(Node::selection(&tree, 0, &rank), 1);
}

#[test]
fn expansion_of_a_node_without_moves_marks_a_leaf() {
    let board = Board::try_from("B".repeat(64)).unwrap();
    let mut tree = Tree::new(board, Cell::White, None);
    let mut rng = rand::rngs::StdRng::seed_from_u64(1);
    assert_eq!(Node::expansion(&mut tree, 0, &mut rng), 0);
    assert!(tree.nodes[0].leaf);
    assert_eq!(tree.nodes.len(), 1);
}

#[test]
fn root_moves_scored_one_by_one_agree_with_the_sequential_search() {
    for &anti in [false, true].iter() {
        let mut bot = MinimaxBot::new(None, Cell::Black, 2, anti);
        bot.game.board = small_position();
        let moves = bot.game.board.allowed_moves(Cell::Black);
        let scores: Vec<i32> = moves.iter().map(|m| bot.score_root_move(m)).collect();
        let expected: Vec<i32> = moves.iter().map(|m| root_score(&bot, m)).collect();
        assert_eq!(scores, expected);
        assert_eq!(moves[first_best(&scores)], bot.run_negamax());
    }
}

#[test]
fn first_best_breaks_ties_by_position() {
    assert_eq!(first_best(&vec![3, 7, 7, -2]), 1);
    assert_eq!(first_best(&vec![-5]), 0);
    assert_eq!(first_best(&vec![-5, -9, -5]), 0);
}

#[test]
fn playout_results_are_tallied_per_move() {
    let mut tally = vec![(0u64, 0u64), (2, 5)];
    record_result(&mut tally, 1, EndState::WhiteWon, Cell::White);
    record_result(&mut tally, 1, EndState::BlackWon, Cell::White);
    record_result(&mut tally, 0, EndState::Tie, Cell::Black);
    assert_eq!(tally, vec![(0, 1), (3, 7)]);
}

#[test]
fn repr_node_draws_the_subtree() {
    let board = Board::initial(None);
    let mut tree = Tree::new(board, Cell::Black, None);
    let mut rng = rand::rngs::StdRng::seed_from_u64(5);
    Node::expansion(&mut tree, 0, &mut rng);
    Node::back_propagate(&mut tree, 2, EndState::BlackWon);
    let text = Node::repr_node(&tree, 0, 0);
    let leaf = |w: u32, v: u32| format!("  Node({}/{}; [\n\n  ])", w, v);
    let children = vec![leaf(0, 0), leaf(1, 1), leaf(0, 0), leaf(0, 0)].join(",\n");
    assert_eq!(text, format!("Node(0/1; [\n{}\n])", children));
    assert_eq!(Node::repr_node(&tree, 1, 3), "      Node(0/0; [\n\n      ])");
}
