use vstd::prelude::*;
use vstd::string::*;

use crate::cell::TileIdx;

verus! {

/// A cell of the 8×8 board, held as its row-major index `y * 8 + x`.
#[derive(Clone, Copy, Debug, PartialEq, Eq, Structural)]
pub struct Point(TileIdx);

/// Column of a row-major index.
pub open spec fn col_of(i: int) -> int {
    i % 8
}

/// Row of a row-major index.
pub open spec fn row_of(i: int) -> int {
    i / 8
}

/// Row-major index of column `x` and row `y`.
pub open spec fn idx_of(x: int, y: int) -> int {
    y * 8 + x
}

/// A coordinate folded into the upper-left quadrant.
pub open spec fn fold_half(v: int) -> int {
    if v < 4 {
        v
    } else {
        7 - v
    }
}

/// The index that `unmirror4` gives for cell `i`.
pub open spec fn unmirror4_of(i: int) -> int {
    idx_of(fold_half(col_of(i)), fold_half(row_of(i)))
}

/// The index that `unmirror8` gives for cell `i`: the quadrant fold followed
/// by a reflection across the diagonal onto the cells with `x >= y`.
pub open spec fn unmirror8_of(i: int) -> int {
    let x = fold_half(col_of(i));
    let y = fold_half(row_of(i));
    if x > y {
        idx_of(x, y)
    } else {
        idx_of(y, x)
    }
}

/// The algebraic name (`A1`..`H8`) of cell `i`: column letter, then row digit.
pub open spec fn ab_of(i: int) -> Seq<char> {
    seq![letter_of(col_of(i)), digit_of(row_of(i))]
}

/// Column letter `A`..`H` of column `x`.
pub open spec fn letter_of(x: int) -> char {
    if x == 0 {
        'A'
    } else if x == 1 {
        'B'
    } else if x == 2 {
        'C'
    } else if x == 3 {
        'D'
    } else if x == 4 {
        'E'
    } else if x == 5 {
        'F'
    } else if x == 6 {
        'G'
    } else {
        'H'
    }
}

/// Row digit `1`..`8` of row `y`.
pub open spec fn digit_of(y: int) -> char {
    if y == 0 {
        '1'
    } else if y == 1 {
        '2'
    } else if y == 2 {
        '3'
    } else if y == 3 {
        '4'
    } else if y == 4 {
        '5'
    } else if y == 5 {
        '6'
    } else if y == 6 {
        '7'
    } else {
        '8'
    }
}

/// The cell named by the first two characters of `s`, if they are a column
/// letter `A`..`H` and a row digit `1`..`8`.
pub open spec fn parse_ab(s: Seq<char>) -> Option<int> {
    if s.len() >= 2 && 65 <= (s[0] as u32) <= 72 && 49 <= (s[1] as u32) <= 56 {
        Some(idx_of(s[0] as u32 - 65, s[1] as u32 - 49))
    } else {
        None
    }
}

impl View for Point {
    type V = int;

    closed spec fn view(&self) -> int {
        self.0 as int
    }
}

impl Point {
    #[verifier::type_invariant]
    spec fn in_range(self) -> bool {
        0 <= self.0 < 64
    }

    /// Two points are equal exactly when their indices are.
    pub proof fn lemma_view_eq(a: Point, b: Point)
        ensures
            (a == b) <==> (a@ == b@),
    {
    }

    /// Parses algebraic notation (`A1`..`H8`); characters past the second are
    /// ignored.
    pub fn from_ab(ab: &str) -> (r: Option<Self>)
        ensures
            r matches Some(p) ==> parse_ab(ab@) == Some(p@),
            r is None ==> parse_ab(ab@) is None,
    {
        if ab.unicode_len() < 2 {
            return None;
        }
        let x = ab.get_char(0) as u32;
        let y = ab.get_char(1) as u32;
        if 49 <= y && y <= 56 && 65 <= x && x <= 72 {
            Some(Self::from_xy((x - 65) as TileIdx, (y - 49) as TileIdx))
        } else {
            None
        }
    }

    /// Algebraic notation of the point, such as `D3`.
    pub fn to_ab(&self) -> (r: String)
        ensures
            r@ == ab_of(self@),
    {
        proof {
            use_type_invariant(self);
        }
        let (x, y) = self.to_xy();
        let letter = if x == 0 {
            "A"
        } else if x == 1 {
            "B"
        } else if x == 2 {
            "C"
        } else if x == 3 {
            "D"
        } else if x == 4 {
            "E"
        } else if x == 5 {
            "F"
        } else if x == 6 {
            "G"
        } else {
            "H"
        };
        let digit = if y == 0 {
            "1"
        } else if y == 1 {
            "2"
        } else if y == 2 {
            "3"
        } else if y == 3 {
            "4"
        } else if y == 4 {
            "5"
        } else if y == 5 {
            "6"
        } else if y == 6 {
            "7"
        } else {
            "8"
        };
        proof {
            reveal_strlit("A");
            reveal_strlit("B");
            reveal_strlit("C");
            reveal_strlit("D");
            reveal_strlit("E");
            reveal_strlit("F");
            reveal_strlit("G");
            reveal_strlit("H");
            reveal_strlit("1");
            reveal_strlit("2");
            reveal_strlit("3");
            reveal_strlit("4");
            reveal_strlit("5");
            reveal_strlit("6");
            reveal_strlit("7");
            reveal_strlit("8");
        }
        let mut r = String::from_str(letter);
        r.append(digit);
        proof {
            assert(r@ =~= ab_of(self@));
        }
        r
    }

    /// The point with row-major index `idx`.
    pub fn from_idx(idx: TileIdx) -> (r: Self)
        requires
            0 <= idx < 64,
        ensures
            r@ == idx,
    {
        Self(idx)
    }

    /// Row-major index of the point.
    pub fn to_idx(&self) -> (r: TileIdx)
        ensures
            r == self@,
            0 <= r < 64,
    {
        proof {
            use_type_invariant(self);
        }
        self.0
    }

    /// The point in column `x` and row `y`.
    pub fn from_xy(x: TileIdx, y: TileIdx) -> (r: Self)
        requires
            0 <= x < 8,
            0 <= y < 8,
        ensures
            r@ == idx_of(x as int, y as int),
    {
        Self(y * 8 + x)
    }

    /// Column and row of the point.
    pub fn to_xy(&self) -> (r: (TileIdx, TileIdx))
        ensures
            r.0 == col_of(self@),
            r.1 == row_of(self@),
            0 <= r.0 < 8,
            0 <= r.1 < 8,
    {
        proof {
            use_type_invariant(self);
        }
        (self.0 % 8, self.0 / 8)
    }

    /// Row-major index of the point, for indexing a board.
    pub fn usize(&self) -> (r: usize)
        ensures
            r == self@,
            r < 64,
    {
        proof {
            use_type_invariant(self);
        }
        self.0 as usize
    }

    /// The point and its reflections across the vertical axis, the
    /// horizontal axis and both.
    pub fn mirror(&self) -> (r: [Self; 4])
        ensures
            r[0]@ == self@,
            r[1]@ == idx_of(7 - col_of(self@), row_of(self@)),
            r[2]@ == idx_of(col_of(self@), 7 - row_of(self@)),
            r[3]@ == idx_of(7 - col_of(self@), 7 - row_of(self@)),
    {
        let (x, y) = self.to_xy();
        [Self::from_xy(x, y), Self::from_xy(7 - x, y), Self::from_xy(x, 7 - y), Self::from_xy(7 - x, 7 - y)]
    }

    /// The point folded into the upper-left quadrant.
    pub fn unmirror4(&self) -> (r: Self)
        ensures
            r@ == unmirror4_of(self@),
    {
        let (x, y) = self.to_xy();
        Self::from_xy(
            if x < 4 {
                x
            } else {
                7 - x
            },
            if y < 4 {
                y
            } else {
                7 - y
            },
        )
    }

    /// The point folded into the octant of the upper-left quadrant with
    /// `x >= y`, one of its ten cells.
    pub fn unmirror8(&self) -> (r: Self)
        ensures
            r@ == unmirror8_of(self@),
    {
        let (x, y) = self.unmirror4().to_xy();
        if x > y {
            Self::from_xy(x, y)
        } else {
            Self::from_xy(y, x)
        }
    }
}

} // verus!
