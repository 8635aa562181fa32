use vstd::prelude::*;

use crate::board::{apply_spec, legal_moves_spec, move_view, moves_view, Board};
use crate::cell::{is_color, opposite_of, won_by, Cell, EndState, PlayerMove};
use crate::random::seeded_rng;
use crate::tree::{is_round, is_search_trace, ratio_gt, tree_wf, Node, Tree};

verus! {

/// Some root has been visited.
pub open spec fn any_visited(s: Seq<(u64, u64)>) -> bool {
    exists|k: int| 0 <= k < s.len() && (#[trigger] s[k]).1 > 0
}

/// Entry `r` of `(wins, visits)` pairs is the one to play: the first visited
/// entry with the highest win ratio, or entry 0 when none was visited.
pub open spec fn is_ratio_choice(s: Seq<(u64, u64)>, r: int) -> bool {
    &&& 0 <= r < s.len()
    &&& if any_visited(s) {
        &&& s[r].1 > 0
        &&& forall|k: int|
            0 <= k < s.len() && (#[trigger] s[k]).1 > 0 ==> !ratio_gt(
                s[k].0 as int,
                s[k].1 as int,
                s[r].0 as int,
                s[r].1 as int,
            )
        &&& forall|k: int|
            0 <= k < r && (#[trigger] s[k]).1 > 0 ==> ratio_gt(
                s[r].0 as int,
                s[r].1 as int,
                s[k].0 as int,
                s[k].1 as int,
            )
    } else {
        r == 0
    }
}

/// The position of the root to play among `(wins, visits)` pairs, one per
/// root move; see `is_ratio_choice`. An unvisited root is never chosen ahead
/// of a visited one.
pub fn choose_by_ratio(scores: &Vec<(u64, u64)>) -> (r: usize)
    requires
        scores@.len() > 0,
    ensures
        is_ratio_choice(scores@, r as int),
{
    let mut best: usize = 0;
    let mut found = false;
    let mut k: usize = 0;
    while k < scores.len()
        invariant
            k <= scores@.len(),
            scores@.len() > 0,
            best < scores@.len(),
            !found ==> best == 0,
            found ==> best < k && scores@[best as int].1 > 0,
            found == exists|j: int| 0 <= j < k && (#[trigger] scores@[j]).1 > 0,
            found ==> forall|j: int|
                0 <= j < k && (#[trigger] scores@[j]).1 > 0 ==> !ratio_gt(
                    scores@[j].0 as int,
                    scores@[j].1 as int,
                    scores@[best as int].0 as int,
                    scores@[best as int].1 as int,
                ),
            found ==> forall|j: int|
                0 <= j < best && (#[trigger] scores@[j]).1 > 0 ==> ratio_gt(
                    scores@[best as int].0 as int,
                    scores@[best as int].1 as int,
                    scores@[j].0 as int,
                    scores@[j].1 as int,
                ),
        decreases scores@.len() - k,
    {
        let (w, v) = scores[k];
        let (bw, bv) = scores[best];
        let w = w as u128;
        let v = v as u128;
        let bw = bw as u128;
        let bv = bv as u128;
        proof {
            assert(w * bv <= 0xffff_ffff_ffff_ffffu128 * 0xffff_ffff_ffff_ffffu128) by (nonlinear_arith)
                requires
                    w <= 0xffff_ffff_ffff_ffffu128,
                    bv <= 0xffff_ffff_ffff_ffffu128,
            ;
            assert(bw * v <= 0xffff_ffff_ffff_ffffu128 * 0xffff_ffff_ffff_ffffu128) by (nonlinear_arith)
                requires
                    bw <= 0xffff_ffff_ffff_ffffu128,
                    v <= 0xffff_ffff_ffff_ffffu128,
            ;
        }
        if v > 0 && (!found || w * bv > bw * v) {
            proof {
                if found {
                    assert forall|j: int| 0 <= j < k && (#[trigger] scores@[j]).1 > 0 implies ratio_gt(
                        w as int,
                        v as int,
                        scores@[j].0 as int,
                        scores@[j].1 as int,
                    ) by {
                        let sw = scores@[j].0 as int;
                        let sv = scores@[j].1 as int;
                        assert(sw * bv <= bw * sv);
                        assert(w * sv > sw * v) by (nonlinear_arith)
                            requires
                                sw * bv <= bw * sv,
                                w * bv > bw * v,
                                bv >= 1,
                                sv >= 1,
                                v >= 1,
                                sw >= 0,
                                bw >= 0,
                        ;
                    }
                }
            }
            best = k;
            found = true;
        }
        k += 1;
    }
    best
}

/// One search tree per legal move of `color`, in move order, rooted at the
/// board after that move with the other side to move.
pub fn root_trees(board: &Board, color: Cell) -> (r: Vec<Tree>)
    requires
        is_color(color),
    ensures
        ({
            let ms = legal_moves_spec(board@, color);
            &&& r@.len() == ms.len()
            &&& forall|k: int|
                0 <= k < ms.len() ==> {
                    let t = (#[trigger] r@[k]).nodes@;
                    &&& tree_wf(t)
                    &&& t.len() == 1
                    &&& t[0].board@ == apply_spec(board@, ms[k].0, ms[k].1, color)
                    &&& t[0].color == opposite_of(color)
                    &&& t[0].nvisits == 0
                    &&& t[0].player_move matches Some(m) && move_view(m) == ms[k]
                }
        }),
{
    let allowed = board.allowed_moves(color);
    let ghost ms = legal_moves_spec(board@, color);
    let mut trees: Vec<Tree> = Vec::new();
    let mut k: usize = 0;
    while k < allowed.len()
        invariant
            k <= ms.len(),
            ms == legal_moves_spec(board@, color),
            moves_view(allowed@) == ms,
            is_color(color),
            trees@.len() == k,
            forall|j: int|
                0 <= j < k ==> {
                    let t = (#[trigger] trees@[j]).nodes@;
                    &&& tree_wf(t)
                    &&& t.len() == 1
                    &&& t[0].board@ == apply_spec(board@, ms[j].0, ms[j].1, color)
                    &&& t[0].color == opposite_of(color)
                    &&& t[0].nvisits == 0
                    &&& t[0].player_move matches Some(m) && move_view(m) == ms[j]
                },
        decreases ms.len() - k,
    {
        proof {
            assert(ms[k as int] == move_view(allowed@[k as int]));
        }
        let mv: PlayerMove = (allowed[k].0, allowed[k].1.clone());
        let tree = Tree::new(board.with_move(&allowed[k], color), color.opposite(), Some(mv));
        trees.push(tree);
        k += 1;
    }
    trees
}

/// `counts` are the root's `(wins, visits)` after a search of as many rounds
/// as it has visits, from a fresh root on board `b0` with `c0` to move.
pub open spec fn is_searched_counts<F: Fn(u64, u64, u64) -> u64>(
    counts: (u64, u64),
    b0: Seq<Cell>,
    c0: Cell,
    rank: F,
    is_anti: bool,
) -> bool {
    exists|ts: Seq<Seq<Node>>|
        #[trigger] is_search_trace(ts, b0, c0, rank, is_anti) && ts.len() == counts.1 + 1 && ts.last()[0].nwins
            == counts.0 && ts.last()[0].nvisits == counts.1
}

/// A root searched with a budget of `iterations` rounds got them all, unless
/// its tree ran out of room: a visit counter at its maximum, or more nodes
/// than the address space holds after another round.
pub open spec fn used_budget(visits: u64, iterations: u64) -> bool {
    visits <= iterations && (visits == iterations || visits == u64::MAX || 64 * visits + 65 >= usize::MAX)
}

/// Visits at the chosen root after `mcts_search` with `n_moves` root moves
/// and `iterations` rounds per move, when its tree has room for them: none
/// when a single move is played without search.
pub open spec fn chosen_root_visits(n_moves: nat, iterations: nat) -> nat {
    if n_moves <= 1 {
        0
    } else {
        iterations
    }
}

/// A larger round budget never gives the chosen root fewer visits.
pub proof fn lemma_budget_monotone(n_moves: nat, i1: nat, i2: nat)
    requires
        i1 <= i2,
    ensures
        chosen_root_visits(n_moves, i1) <= chosen_root_visits(n_moves, i2),
{
}

/// Monte-Carlo tree search over the legal moves of `color`, with a round
/// budget in place of a time budget and a seeded generator: one independent
/// tree per root move, each run for `iterations` rounds (UCT selection by
/// `rank`, full expansion, a random playout, back-propagation) or until it
/// has no room for another, then the root with the best win ratio is chosen.
/// Returns the position of the chosen move among the legal moves and the
/// `(wins, visits)` of every root. With a single legal move nothing is
/// searched.
pub fn mcts_search<F: Fn(u64, u64, u64) -> u64>(
    board: &Board,
    color: Cell,
    iterations: u64,
    rank: &F,
    is_anti: bool,
    seed: u64,
) -> (r: (usize, Vec<(u64, u64)>))
    requires
        is_color(color),
        legal_moves_spec(board@, color).len() > 0,
        forall|a: u64, b: u64, c: u64| call_requires(*rank, (a, b, c)),
    ensures
        ({
            let n = legal_moves_spec(board@, color).len();
            &&& r.0 < n
            &&& if n == 1 {
                r.0 == 0 && r.1@.len() == 0
            } else {
                &&& r.1@.len() == n
                &&& is_ratio_choice(r.1@, r.0 as int)
                &&& forall|k: int| 0 <= k < n ==> used_budget((#[trigger] r.1@[k]).1, iterations)
                &&& forall|k: int| 0 <= k < n ==> (#[trigger] r.1@[k]).0 <= r.1@[k].1
                &&& forall|k: int|
                    0 <= k < n ==> #[trigger] is_searched_counts(
                        r.1@[k],
                        apply_spec(
                            board@,
                            legal_moves_spec(board@, color)[k].0,
                            legal_moves_spec(board@, color)[k].1,
                            color,
                        ),
                        opposite_of(color),
                        *rank,
                        is_anti,
                    )
                &&& used_budget(r.1@[r.0 as int].1, chosen_root_visits(n, iterations as nat) as u64)
            }
        }),
{
    let allowed = board.allowed_moves(color);
    let ghost ms = legal_moves_spec(board@, color);
    if allowed.len() == 1 {
        return (0, Vec::new());
    }
    let mut rng = seeded_rng(seed);
    let mut scores: Vec<(u64, u64)> = Vec::new();
    let mut k: usize = 0;
    while k < allowed.len()
        invariant
            k <= ms.len(),
            ms == legal_moves_spec(board@, color),
            moves_view(allowed@) == ms,
            is_color(color),
            forall|a: u64, b: u64, c: u64| call_requires(*rank, (a, b, c)),
            scores@.len() == k,
            forall|j: int| 0 <= j < k ==> used_budget((#[trigger] scores@[j]).1, iterations),
            forall|j: int| 0 <= j < k ==> (#[trigger] scores@[j]).0 <= scores@[j].1,
            forall|j: int|
                0 <= j < k ==> #[trigger] is_searched_counts(
                    scores@[j],
                    apply_spec(board@, ms[j].0, ms[j].1, color),
                    opposite_of(color),
                    *rank,
                    is_anti,
                ),
        decreases ms.len() - k,
    {
        proof {
            assert(ms[k as int] == move_view(allowed@[k as int]));
        }
        let mv: PlayerMove = (allowed[k].0, allowed[k].1.clone());
        let mut tree = Tree::new(board.with_move(&allowed[k], color), color.opposite(), Some(mv));
        let ghost b0 = apply_spec(board@, ms[k as int].0, ms[k as int].1, color);
        let ghost c0 = opposite_of(color);
        let ghost mut ts: Seq<Seq<Node>> = seq![tree.nodes@];
        let mut round: u64 = 0;
        while round < iterations && tree.has_room()
            invariant
                round <= iterations,
                tree_wf(tree.nodes@),
                tree.nodes@.len() <= 1 + 64 * round,
                tree.nodes@[0].nvisits == round,
                forall|a: u64, b: u64, c: u64| call_requires(*rank, (a, b, c)),
                is_search_trace(ts, b0, c0, *rank, is_anti),
                ts.last() == tree.nodes@,
                ts.len() == round + 1,
            decreases iterations - round,
        {
            let ghost before = tree.nodes@;
            tree.iterate(rank, is_anti, &mut rng);
            proof {
                let ts2 = ts.push(tree.nodes@);
                assert forall|j: int| 0 <= j < ts2.len() - 1 implies #[trigger] is_round(
                    ts2[j],
                    ts2[j + 1],
                    *rank,
                    is_anti,
                ) by {
                    if j < ts.len() - 1 {
                        assert(is_round(ts[j], ts[j + 1], *rank, is_anti));
                    } else {
                        assert(ts2[j] == before);
                    }
                }
                ts = ts2;
            }
            round += 1;
        }
        let counts = tree.root_counts();
        proof {
            assert(is_searched_counts(counts, b0, c0, *rank, is_anti));
        }
        let ghost old_scores = scores@;
        scores.push(counts);
        proof {
            assert forall|j: int| 0 <= j < k + 1 implies #[trigger] is_searched_counts(
                scores@[j],
                apply_spec(board@, ms[j].0, ms[j].1, color),
                opposite_of(color),
                *rank,
                is_anti,
            ) by {
                if j < k {
                    assert(scores@[j] == old_scores[j]);
                }
            }
        }
        k += 1;
    }
    let best = choose_by_ratio(&scores);
    (best, scores)
}

/// Counts one playout of root move `k` in `scores`: a visit, and a win when
/// `result` is a win for `color`. Other entries stay as they are.
pub fn record_result(scores: &mut Vec<(u64, u64)>, k: usize, result: EndState, color: Cell)
    requires
        k < old(scores)@.len(),
        old(scores)@[k as int].1 < u64::MAX,
        old(scores)@[k as int].0 <= old(scores)@[k as int].1,
    ensures
        final(scores)@ == old(scores)@.update(
            k as int,
            (
                (old(scores)@[k as int].0 + if won_by(result, color) {
                    1int
                } else {
                    0
                }) as u64,
                (old(scores)@[k as int].1 + 1) as u64,
            ),
        ),
{
    let (w, v) = scores[k];
    let w2 = if result.won(color) {
        w + 1
    } else {
        w
    };
    scores.set(k, (w2, v + 1));
}

} // verus!
