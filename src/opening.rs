use vstd::prelude::*;

use crate::board::{
    flips_dir, flips_of, flips_upto, initial_spec, is_legal, legal_moves_spec, moves_upto, run_end,
};
use crate::cell::Cell;
use crate::point::{col_of, row_of};

verus! {

/// What black flips from target `t` in direction `d` on the opening board.
pub open spec fn opening_dir_flips(t: int, d: int) -> Seq<int> {
    if (t == 19 && d == 4) || (t == 26 && d == 2) {
        seq![27]
    } else if (t == 37 && d == 6) || (t == 44 && d == 0) {
        seq![36]
    } else {
        Seq::empty()
    }
}

/// What black flips from target `t` on the opening board.
pub open spec fn opening_flips(t: int) -> Seq<int> {
    if t == 19 || t == 26 {
        seq![27]
    } else if t == 37 || t == 44 {
        seq![36]
    } else {
        Seq::empty()
    }
}

/// Black's four opening moves: D3, C4, F5 and E6, each flipping one white disc.
pub open spec fn opening_black_moves() -> Seq<(int, Seq<int>)> {
    seq![(19, seq![27]), (26, seq![27]), (37, seq![36]), (44, seq![36])]
}

/// Black's opening moves with a target below `t`.
pub open spec fn opening_moves_below(t: int) -> Seq<(int, Seq<int>)> {
    if t <= 19 {
        Seq::empty()
    } else if t <= 26 {
        opening_black_moves().take(1)
    } else if t <= 37 {
        opening_black_moves().take(2)
    } else if t <= 44 {
        opening_black_moves().take(3)
    } else {
        opening_black_moves()
    }
}

/// The black hole is away from the four centre discs and black's four targets.
pub open spec fn hole_off_opening(bh: int) -> bool {
    bh != 27 && bh != 28 && bh != 35 && bh != 36 && bh != 19 && bh != 26 && bh != 37 && bh != 44
}

proof fn lemma_opening_dir(bh: int, t: int, d: int)
    requires
        0 <= t < 64,
        0 <= d < 8,
        hole_off_opening(bh),
    ensures
        flips_dir(initial_spec(bh), Cell::Black, t, d) == opening_dir_flips(t, d),
{
    let b = initial_spec(bh);
    reveal_with_fuel(run_end, 4);
    assert(0 <= col_of(t) < 8 && 0 <= row_of(t) < 8);
    assert(flips_dir(b, Cell::Black, t, d) =~= opening_dir_flips(t, d));
}

proof fn lemma_opening_flips(bh: int, t: int)
    requires
        0 <= t < 64,
        hole_off_opening(bh),
    ensures
        flips_of(initial_spec(bh), Cell::Black, t) == opening_flips(t),
{
    let b = initial_spec(bh);
    lemma_opening_dir(bh, t, 0);
    lemma_opening_dir(bh, t, 1);
    lemma_opening_dir(bh, t, 2);
    lemma_opening_dir(bh, t, 3);
    lemma_opening_dir(bh, t, 4);
    lemma_opening_dir(bh, t, 5);
    lemma_opening_dir(bh, t, 6);
    lemma_opening_dir(bh, t, 7);
    reveal_with_fuel(flips_upto, 9);
    assert(flips_of(b, Cell::Black, t) =~= opening_flips(t));
}

proof fn lemma_opening_prefix(bh: int, t: int)
    requires
        0 <= t <= 64,
        hole_off_opening(bh),
    ensures
        moves_upto(initial_spec(bh), Cell::Black, t) == opening_moves_below(t),
    decreases t,
{
    let b = initial_spec(bh);
    if t > 0 {
        lemma_opening_prefix(bh, t - 1);
        lemma_opening_flips(bh, t - 1);
        let m = opening_black_moves();
        if t - 1 == 19 || t - 1 == 26 || t - 1 == 37 || t - 1 == 44 {
            assert(is_legal(b, Cell::Black, t - 1));
            assert(opening_moves_below(t) =~= opening_moves_below(t - 1).push((t - 1, opening_flips(t - 1))));
        } else {
            assert(!is_legal(b, Cell::Black, t - 1));
            assert(opening_moves_below(t) =~= opening_moves_below(t - 1));
        }
    }
}

/// On the opening position, with no black hole or one away from the centre
/// discs and from black's targets, black has exactly four legal moves, and
/// each flips exactly one white disc.
pub proof fn lemma_opening_black_moves(bh: int)
    requires
        hole_off_opening(bh),
    ensures
        legal_moves_spec(initial_spec(bh), Cell::Black) == opening_black_moves(),
        legal_moves_spec(initial_spec(bh), Cell::Black).len() == 4,
        forall|k: int|
            0 <= k < 4 ==> (#[trigger] legal_moves_spec(initial_spec(bh), Cell::Black)[k]).1.len() == 1
                && initial_spec(bh)[legal_moves_spec(initial_spec(bh), Cell::Black)[k].1[0]] == Cell::White,
{
    lemma_opening_prefix(bh, 64);
}

} // verus!
