//! The dense encoding: one cell per square, a fill counter per column, and a
//! fingerprint kept up to date move by move.

use vstd::prelude::*;
use crate::board::{
    push_footer, push_newline, push_square, Color, Move, Representation, HEIGHT, WIDTH,
};
use crate::position::{owner, Position};

verus! {

/// One fixed 64-bit key per square, `ZOBRIST_KEYS[column][row]`.
pub const ZOBRIST_KEYS: [[u64; HEIGHT]; WIDTH] = [
    [
        7266447313870364031,
        4946485549665804864,
        16945909448695747420,
        16394063075524226720,
        4873882236456199058,
        14877448043947020171,
    ],
    [
        5249110015610582907,
        1235879089597390050,
        17320312680810499042,
        8942268601720066061,
        14226945236717732373,
        9383926873555417063,
    ],
    [
        6489677788245343319,
        236502320419669032,
        13670483975188204088,
        8904234204977263924,
        17251681303478610375,
        13075804672185204371,
    ],
    [
        1074659097419704618,
        17119870085051257224,
        10949279256701751503,
        17618792803942051220,
        957923366004347591,
        1012818702180800310,
    ],
    [
        1861591264068118966,
        3809841506498447207,
        13408683141069553686,
        13900005529547645957,
        16475327524349230602,
        13554353441017344755,
    ],
    [
        6788940719869959076,
        11670856244972073775,
        2488756775360218862,
        11016608897122070904,
        13978444093099579683,
        11628184459157386459,
    ],
    [
        7306216312942796257,
        2889379661594013754,
        17310575136995821873,
        3435082195390932486,
        7444710627467609883,
        11216615872596820107,
    ],
];

/// The keys of the lowest `h` squares of column `c`, combined by XOR.
pub open spec fn column_key(c: int, h: nat) -> u64
    decreases h,
{
    if h == 0 {
        0
    } else {
        column_key(c, (h - 1) as nat) ^ ZOBRIST_KEYS[c][h - 1]
    }
}

/// The keys of all occupied squares, combined by XOR, for a board whose
/// columns are filled to `heights`.
pub open spec fn heights_key(heights: Seq<nat>) -> u64 {
    column_key(0, heights[0]) ^ column_key(1, heights[1]) ^ column_key(2, heights[2]) ^ column_key(
        3,
        heights[3],
    ) ^ column_key(4, heights[4]) ^ column_key(5, heights[5]) ^ column_key(6, heights[6])
}

proof fn lemma_xor_into(k0: u64, k1: u64, k2: u64, k3: u64, k4: u64, k5: u64, k6: u64, d: u64)
    by (bit_vector)
    ensures
        (k0 ^ d) ^ k1 ^ k2 ^ k3 ^ k4 ^ k5 ^ k6 == (k0 ^ k1 ^ k2 ^ k3 ^ k4 ^ k5 ^ k6) ^ d,
        k0 ^ (k1 ^ d) ^ k2 ^ k3 ^ k4 ^ k5 ^ k6 == (k0 ^ k1 ^ k2 ^ k3 ^ k4 ^ k5 ^ k6) ^ d,
        k0 ^ k1 ^ (k2 ^ d) ^ k3 ^ k4 ^ k5 ^ k6 == (k0 ^ k1 ^ k2 ^ k3 ^ k4 ^ k5 ^ k6) ^ d,
        k0 ^ k1 ^ k2 ^ (k3 ^ d) ^ k4 ^ k5 ^ k6 == (k0 ^ k1 ^ k2 ^ k3 ^ k4 ^ k5 ^ k6) ^ d,
        k0 ^ k1 ^ k2 ^ k3 ^ (k4 ^ d) ^ k5 ^ k6 == (k0 ^ k1 ^ k2 ^ k3 ^ k4 ^ k5 ^ k6) ^ d,
        k0 ^ k1 ^ k2 ^ k3 ^ k4 ^ (k5 ^ d) ^ k6 == (k0 ^ k1 ^ k2 ^ k3 ^ k4 ^ k5 ^ k6) ^ d,
        k0 ^ k1 ^ k2 ^ k3 ^ k4 ^ k5 ^ (k6 ^ d) == (k0 ^ k1 ^ k2 ^ k3 ^ k4 ^ k5 ^ k6) ^ d,
{
}

proof fn lemma_xor_twice(k: u64, d: u64)
    by (bit_vector)
    ensures
        (k ^ d) ^ d == k,
{
}

/// Filling one more square of column `c` changes the fingerprint by that
/// square's key, and so does emptying it again.
pub proof fn lemma_heights_key_step(heights: Seq<nat>, c: int)
    requires
        heights.len() == 7,
        0 <= c < 7,
    ensures
        heights_key(heights.update(c, heights[c] + 1)) == heights_key(heights)
            ^ ZOBRIST_KEYS[c][heights[c] as int],
        heights_key(heights) == heights_key(heights.update(c, heights[c] + 1))
            ^ ZOBRIST_KEYS[c][heights[c] as int],
{
    let d = ZOBRIST_KEYS[c][heights[c] as int];
    let up = heights.update(c, heights[c] + 1);
    assert(column_key(c, up[c]) == column_key(c, heights[c]) ^ d);
    lemma_xor_into(
        column_key(0, heights[0]),
        column_key(1, heights[1]),
        column_key(2, heights[2]),
        column_key(3, heights[3]),
        column_key(4, heights[4]),
        column_key(5, heights[5]),
        column_key(6, heights[6]),
        d,
    );
    lemma_xor_twice(heights_key(heights), d);
}

/// The dense board: the owner of every square, for each column the row that
/// the next piece will take, the fingerprint, and the side to move.
#[derive(Debug, PartialEq)]
pub struct PieceList {
    turn: Color,
    squares: [[Option<Color>; HEIGHT]; WIDTH],
    empties: [usize; WIDTH],
    zobrist: u64,
}

impl Clone for PieceList {
    fn clone(&self) -> (copy: PieceList)
        ensures
            copy == *self,
    {
        PieceList {
            turn: self.turn,
            squares: self.squares,
            empties: self.empties,
            zobrist: self.zobrist,
        }
    }
}

impl PieceList {
    /// Under the invariant, the squares are the cells of the position.
    proof fn lemma_cells(&self)
        requires
            self.wf(),
        ensures
            forall|c: int, r: int|
                0 <= c < 7 && 0 <= r < 6 ==> #[trigger] self.position().cell(c, r)
                    == self.squares[c][r],
            forall|c: int| 0 <= c < 7 ==> #[trigger] self.position().height(c) == self.empties[c],
    {
    }

    /// Whether the square at `(col, row)` holds a piece of `color`.
    fn holds(&self, col: usize, row: usize, color: Color) -> (b: bool)
        requires
            self.wf(),
            col < 7,
            row < 6,
        ensures
            b == (self.position().cell(col as int, row as int) == Some(color)),
    {
        proof {
            self.lemma_cells();
        }
        match self.squares[col][row] {
            Some(piece) => piece == color,
            None => false,
        }
    }
}

impl PieceList {
    /// The picture of the board: the rows from the top one down, a rule, and
    /// the side to move.
    pub fn to_string(&self) -> (text: String)
        requires
            self.wf(),
        ensures
            text@ == self.position().text(),
    {
        let ghost p = self.position();
        let mut text = String::new();
        let mut row = HEIGHT;
        while row > 0
            invariant
                self.wf(),
                p == self.position(),
                row <= 6,
                text@ == p.rows_text(row as int),
            decreases row,
        {
            row -= 1;
            let ghost above = text@;
            assert(text@ =~= above + p.row_start(row as int, 0));
            for col in 0..WIDTH
                invariant
                    self.wf(),
                    p == self.position(),
                    row < 6,
                    text@ == above + p.row_start(row as int, col as nat),
            {
                proof {
                    self.lemma_cells();
                }
                push_square(&mut text, self.squares[col][row]);
                assert(text@ =~= above + p.row_start(row as int, (col + 1) as nat));
            }
            push_newline(&mut text);
            assert(text@ =~= p.rows_text(row as int));
        }
        push_footer(&mut text, self.turn);
        text
    }
}

impl Representation for PieceList {
    closed spec fn position(&self) -> Position {
        Position {
            columns: Seq::new(
                7,
                |c: int|
                    Seq::new(self.empties[c] as nat, |r: int| owner(self.squares[c][r])),
            ),
            turn: self.turn,
        }
    }

    closed spec fn wf(&self) -> bool {
        &&& forall|c: int| 0 <= c < 7 ==> #[trigger] self.empties[c] <= 6
        &&& forall|c: int, r: int|
            0 <= c < 7 && 0 <= r < 6 ==> ((#[trigger] self.squares[c][r]) is Some <==> r
                < self.empties[c])
        &&& self.zobrist == heights_key(self.position().heights())
    }

    open spec fn key(heights: Seq<nat>) -> u64 {
        heights_key(heights)
    }

    proof fn lemma_position_wf(&self) {
    }

    proof fn lemma_position_determines(&self, other: &Self) {
        assert(self.empties =~= other.empties) by {
            assert forall|c: int| 0 <= c < 7 implies self.empties[c] == other.empties[c] by {
                assert(self.position().columns[c].len() == other.position().columns[c].len());
            }
        }
        assert(self.squares =~= other.squares) by {
            assert forall|c: int| 0 <= c < 7 implies self.squares[c] == other.squares[c] by {
                assert forall|r: int| 0 <= r < 6 implies self.squares[c][r]
                    == other.squares[c][r] by {
                    assert(self.empties[c] == other.empties[c]);
                    if r < self.empties[c] {
                        assert(self.position().columns[c][r] == owner(self.squares[c][r]));
                        assert(other.position().columns[c][r] == owner(other.squares[c][r]));
                        assert(self.squares[c][r] is Some);
                        assert(other.squares[c][r] is Some);
                    } else {
                        assert(self.squares[c][r] is None);
                        assert(other.squares[c][r] is None);
                    }
                }
                assert(self.squares[c] =~= other.squares[c]);
            }
        }
        assert(self.position().heights() =~= other.position().heights());
    }

    fn empty() -> (board: Self) {
        let board = PieceList {
            turn: Color::Red,
            squares: [[None; HEIGHT]; WIDTH],
            empties: [0; WIDTH],
            zobrist: 0,
        };
        proof {
            assert(board.position().columns =~= Position::empty().columns) by {
                assert forall|c: int| 0 <= c < 7 implies board.position().columns[c]
                    =~= Position::empty().columns[c] by {}
            }
            assert(column_key(0, 0) == 0);
            assert(0u64 ^ 0u64 ^ 0u64 ^ 0u64 ^ 0u64 ^ 0u64 ^ 0u64 == 0u64) by (bit_vector);
        }
        board
    }

    fn make_move(&mut self, mv: Move) {
        let col = mv.col;
        let row = self.empties[col];
        self.squares[col][row] = Some(self.turn);
        self.empties[col] = row + 1;
        self.zobrist ^= ZOBRIST_KEYS[col][row];
        self.turn = self.turn.not();
        proof {
            let before = old(self).position();
            let after = self.position();
            assert(after.columns =~= before.apply(col as int).columns) by {
                assert forall|c: int| 0 <= c < 7 implies after.columns[c] =~= before.apply(
                    col as int,
                ).columns[c] by {}
            }
            assert(after.heights() =~= before.heights().update(
                col as int,
                before.heights()[col as int] + 1,
            ));
            lemma_heights_key_step(before.heights(), col as int);
        }
    }

    fn unmake_move(&mut self, mv: Move) {
        let col = mv.col;
        let row = self.empties[col] - 1;
        self.squares[col][row] = None;
        self.empties[col] = row;
        self.zobrist ^= ZOBRIST_KEYS[col][row];
        self.turn = self.turn.not();
        proof {
            let before = old(self).position();
            let after = self.position();
            assert(after.columns =~= before.undo(col as int).columns) by {
                assert forall|c: int| 0 <= c < 7 implies after.columns[c] =~= before.undo(
                    col as int,
                ).columns[c] by {}
            }
            assert(before.heights() =~= after.heights().update(
                col as int,
                after.heights()[col as int] + 1,
            ));
            lemma_heights_key_step(after.heights(), col as int);
        }
    }

    fn zobrist(&self) -> (k: u64) {
        self.zobrist
    }

    fn turn(&self) -> (c: Color) {
        self.turn
    }

    fn generate_moves(&self) -> (moves: Vec<Move>) {
        let mut moves: Vec<Move> = Vec::new();
        for col in 0..WIDTH
            invariant
                self.wf(),
                moves@ == self.position().legal_moves_below(col as int),
        {
            if self.empties[col] < HEIGHT {
                moves.push(Move { col });
            }
        }
        moves
    }

    fn is_terminal(&self) -> (t: bool) {
        let ghost p = self.position();
        let square = self.turn;
        for col in 0..WIDTH
            invariant
                self.wf(),
                p == self.position(),
                square == p.turn,
                forall|c: int, r: int|
                    0 <= c < col && 0 <= r < 6 ==> !#[trigger] p.four_at(square, c, r),
        {
            for row in 0..HEIGHT
                invariant
                    self.wf(),
                    p == self.position(),
                    square == p.turn,
                    col < 7,
                    forall|c: int, r: int|
                        0 <= c < col && 0 <= r < 6 ==> !#[trigger] p.four_at(square, c, r),
                    forall|r: int| 0 <= r < row ==> !#[trigger] p.four_at(square, col as int, r),
            {
                if self.holds(col, row, square) {
                    // to the right
                    if col < WIDTH - 3 && self.holds(col + 1, row, square) && self.holds(
                        col + 2,
                        row,
                        square,
                    ) && self.holds(col + 3, row, square) {
                        assert(p.four_at(square, col as int, row as int));
                        return true;
                    }
                    // upwards
                    if row < HEIGHT - 3 && self.holds(col, row + 1, square) && self.holds(
                        col,
                        row + 2,
                        square,
                    ) && self.holds(col, row + 3, square) {
                        assert(p.four_at(square, col as int, row as int));
                        return true;
                    }
                    // up and to the right
                    if col < WIDTH - 3 && row < HEIGHT - 3 && self.holds(
                        col + 1,
                        row + 1,
                        square,
                    ) && self.holds(col + 2, row + 2, square) && self.holds(
                        col + 3,
                        row + 3,
                        square,
                    ) {
                        assert(p.four_at(square, col as int, row as int));
                        return true;
                    }
                    // up and to the left
                    if col > 2 && row < HEIGHT - 3 && self.holds(col - 1, row + 1, square)
                        && self.holds(col - 2, row + 2, square) && self.holds(
                        col - 3,
                        row + 3,
                        square,
                    ) {
                        assert(p.four_at(square, col as int, row as int));
                        return true;
                    }
                }
                assert(!p.four_at(square, col as int, row as int)) by {
                    p.lemma_four_in_bounds(square, col as int, row as int);
                }
            }
        }
        false
    }
}

} // verus!
