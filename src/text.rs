use vstd::prelude::*;
use vstd::string::*;

use crate::board::Board;
use crate::cell::Cell;
use crate::point::digit_of;

verus! {

/// The characters with Unicode's `White_Space` property.
pub open spec fn is_white_space_spec(c: char) -> bool {
    let u = c as u32;
    (9 <= u <= 13) || u == 32 || u == 0x85 || u == 0xa0 || u == 0x1680 || (0x2000 <= u <= 0x200a) || u
        == 0x2028 || u == 0x2029 || u == 0x202f || u == 0x205f || u == 0x3000
}

/// Whether `c` is white space (Unicode `White_Space`).
pub fn is_white_space(c: char) -> (r: bool)
    ensures
        r == is_white_space_spec(c),
{
    let u = c as u32;
    (9 <= u && u <= 13) || u == 32 || u == 0x85 || u == 0xa0 || u == 0x1680 || (0x2000 <= u && u <= 0x200a)
        || u == 0x2028 || u == 0x2029 || u == 0x202f || u == 0x205f || u == 0x3000
}

/// The cell that a board character stands for: `B`lack, `W`hite, black
/// `H`ole, `_` for empty.
pub open spec fn cell_of_char(c: char) -> Option<Cell> {
    if c == 'B' {
        Some(Cell::Black)
    } else if c == 'W' {
        Some(Cell::White)
    } else if c == 'H' {
        Some(Cell::BlackHole)
    } else if c == '_' {
        Some(Cell::Empty)
    } else {
        None
    }
}

/// The cells that the first `n` characters of `s` spell, white space
/// skipped; none if a character is neither white space nor a cell.
pub open spec fn parse_cells(s: Seq<char>, n: int) -> Option<Seq<Cell>>
    decreases n,
{
    if n <= 0 {
        Some(Seq::empty())
    } else {
        match parse_cells(s, n - 1) {
            Some(p) => if is_white_space_spec(s[n - 1]) {
                Some(p)
            } else {
                match cell_of_char(s[n - 1]) {
                    Some(c) => Some(p.push(c)),
                    None => None,
                }
            },
            None => None,
        }
    }
}

/// Board cells from the spelled cells `cs` (at most 64), the rest empty.
pub open spec fn padded(cs: Seq<Cell>) -> Seq<Cell> {
    Seq::new(64, |i: int| if i < cs.len() { cs[i] } else { Cell::Empty })
}

/// Relies on `String::push`: appends one character.
#[verifier::external_body]
pub(crate) fn push_char(s: &mut String, c: char)
    ensures
        final(s)@ == old(s)@.push(c),
{
    s.push(c);
}

impl Board {
    /// Reads a board from text: one character per cell in row-major order
    /// (`B`, `W`, `H`, `_`), white space ignored, missing cells empty. Fails on
    /// any other character and on more than 64 cells.
    pub fn try_from(board_str: String) -> (r: Result<Board, String>)
        ensures
            ({
                let p = parse_cells(board_str@, board_str@.len() as int);
                match r {
                    Ok(b) => p matches Some(cs) && cs.len() <= 64 && b@ == padded(cs),
                    Err(_) => p is None || p->0.len() > 64,
                }
            }),
    {
        let s = board_str.as_str();
        let n = s.unicode_len();
        let mut board = Board([Cell::Empty; 64]);
        let mut idx: usize = 0;
        let mut i: usize = 0;
        assert(forall|j: int| 0 <= j < 64 ==> board@[j] == Cell::Empty);
        while i < n
            invariant
                n == s@.len(),
                s@ == board_str@,
                i <= n,
                idx <= 64,
                parse_cells(s@, i as int) matches Some(cs) && cs.len() == idx && board@ == padded(cs),
            decreases n - i,
        {
            let ch = s.get_char(i);
            if !is_white_space(ch) {
                let cell = if ch == 'B' {
                    Cell::Black
                } else if ch == 'W' {
                    Cell::White
                } else if ch == 'H' {
                    Cell::BlackHole
                } else if ch == '_' {
                    Cell::Empty
                } else {
                    let mut msg = String::from_str("Unexpected char inside board: ");
                    push_char(&mut msg, ch);
                    proof {
                        lemma_parse_fails_after(s@, i as int + 1, n as int);
                    }
                    return Err(msg);
                };
                if idx == 64 {
                    proof {
                        lemma_parse_grows(s@, i as int + 1, n as int);
                    }
                    return Err(String::from_str("More than 64 cells in board"));
                }
                board.0[idx] = cell;
                proof {
                    let cs = parse_cells(s@, i as int)->0;
                    assert(board@ =~= padded(cs.push(cell)));
                }
                idx += 1;
            }
            i += 1;
        }
        Ok(board)
    }
}

proof fn lemma_parse_fails_after(s: Seq<char>, k: int, n: int)
    requires
        0 < k <= n,
        parse_cells(s, k) is None,
    ensures
        parse_cells(s, n) is None,
    decreases n - k,
{
    if k < n {
        lemma_parse_fails_after(s, k + 1, n);
    }
}

proof fn lemma_parse_grows(s: Seq<char>, k: int, n: int)
    requires
        0 < k <= n,
        parse_cells(s, k) is None || parse_cells(s, k)->0.len() > 64,
    ensures
        parse_cells(s, n) is None || parse_cells(s, n)->0.len() > 64,
    decreases n - k,
{
    if k < n {
        lemma_parse_grows(s, k + 1, n);
    }
}

/// Two characters drawing a cell: white `██`, black `░░`, black hole `BH`,
/// empty `▒▒`.
pub open spec fn glyph(c: Cell) -> Seq<char> {
    match c {
        Cell::White => seq!['█', '█'],
        Cell::Black => seq!['░', '░'],
        Cell::BlackHole => seq!['B', 'H'],
        Cell::Empty => seq!['▒', '▒'],
    }
}

/// The glyphs of the first `k` cells of row `y`.
pub open spec fn row_cells_text(b: Seq<Cell>, y: int, k: int) -> Seq<char>
    decreases k,
{
    if k <= 0 {
        Seq::empty()
    } else {
        row_cells_text(b, y, k - 1) + glyph(b[y * 8 + k - 1])
    }
}

/// The first `n` rows, each a space, its number and its glyphs, and a newline.
pub open spec fn rows_text(b: Seq<Cell>, n: int) -> Seq<char>
    decreases n,
{
    if n <= 0 {
        Seq::empty()
    } else {
        rows_text(b, n - 1) + seq![' ', digit_of(n - 1)] + row_cells_text(b, n - 1, 8) + seq!['\n']
    }
}

/// The column header line.
pub open spec fn header_text() -> Seq<char> {
    seq![' ', ' ', ' ', 'A', ' ', 'B', ' ', 'C', ' ', 'D', ' ', 'E', ' ', 'F', ' ', 'G', ' ', 'H', '\n']
}

/// A drawing of a 64-cell board: the column letters, then one line per row.
pub fn repr_board(board: &[Cell]) -> (r: String)
    requires
        board@.len() == 64,
    ensures
        r@ == header_text() + rows_text(board@, 8),
{
    proof {
        reveal_strlit("   A B C D E F G H\n");
    }
    let mut out = String::from_str("   A B C D E F G H\n");
    let mut y: usize = 0;
    while y < 8
        invariant
            y <= 8,
            board@.len() == 64,
            out@ == header_text() + rows_text(board@, y as int),
        decreases 8 - y,
    {
        let digit = if y == 0 {
            " 1"
        } else if y == 1 {
            " 2"
        } else if y == 2 {
            " 3"
        } else if y == 3 {
            " 4"
        } else if y == 4 {
            " 5"
        } else if y == 5 {
            " 6"
        } else if y == 6 {
            " 7"
        } else {
            " 8"
        };
        proof {
            reveal_strlit(" 1");
            reveal_strlit(" 2");
            reveal_strlit(" 3");
            reveal_strlit(" 4");
            reveal_strlit(" 5");
            reveal_strlit(" 6");
            reveal_strlit(" 7");
            reveal_strlit(" 8");
            assert(digit@ =~= seq![' ', digit_of(y as int)]);
        }
        let ghost start = out@;
        out.append(digit);
        let mut x: usize = 0;
        while x < 8
            invariant
                x <= 8,
                y < 8,
                board@.len() == 64,
                out@ == start + seq![' ', digit_of(y as int)] + row_cells_text(board@, y as int, x as int),
            decreases 8 - x,
        {
            let g = match board[y * 8 + x] {
                Cell::White => "██",
                Cell::Black => "░░",
                Cell::BlackHole => "BH",
                Cell::Empty => "▒▒",
            };
            proof {
                reveal_strlit("██");
                reveal_strlit("░░");
                reveal_strlit("BH");
                reveal_strlit("▒▒");
                assert(g@ =~= glyph(board@[y * 8 + x]));
            }
            out.append(g);
            proof {
                assert(out@ =~= start + seq![' ', digit_of(y as int)] + row_cells_text(board@, y as int, x + 1));
            }
            x += 1;
        }
        proof {
            reveal_strlit("\n");
        }
        out.append("\n");
        proof {
            assert(out@ =~= header_text() + rows_text(board@, y + 1));
        }
        y += 1;
    }
    out
}

/// The digit character of `d`, `0` to `9`.
pub open spec fn digit_char(d: int) -> char {
    if d == 0 {
        '0'
    } else if d == 1 {
        '1'
    } else if d == 2 {
        '2'
    } else if d == 3 {
        '3'
    } else if d == 4 {
        '4'
    } else if d == 5 {
        '5'
    } else if d == 6 {
        '6'
    } else if d == 7 {
        '7'
    } else if d == 8 {
        '8'
    } else {
        '9'
    }
}

/// The decimal digits of `n`, most significant first.
pub open spec fn decimal(n: nat) -> Seq<char>
    decreases n,
{
    if n < 10 {
        seq![digit_char(n as int)]
    } else {
        decimal(n / 10).push(digit_char((n % 10) as int))
    }
}

/// Appends the decimal digits of `n` to `out`.
pub fn push_decimal(out: &mut String, n: u64)
    ensures
        final(out)@ == old(out)@ + decimal(n as nat),
    decreases n,
{
    if n >= 10 {
        push_decimal(out, n / 10);
    }
    let d = n % 10;
    let c = if d == 0 {
        '0'
    } else if d == 1 {
        '1'
    } else if d == 2 {
        '2'
    } else if d == 3 {
        '3'
    } else if d == 4 {
        '4'
    } else if d == 5 {
        '5'
    } else if d == 6 {
        '6'
    } else if d == 7 {
        '7'
    } else if d == 8 {
        '8'
    } else {
        '9'
    };
    push_char(out, c);
    proof {
        assert(out@ =~= old(out)@ + decimal(n as nat));
    }
}

} // verus!
